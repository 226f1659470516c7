//! Binary formats of the training data: solved subgame samples ("PGS1") and their
//! equity companions ("PGSE"), little-endian. Float fields are carried as their IEEE-754
//! bit patterns, so the formats are pure byte layouts.
use vstd::prelude::*;
use crate::card::{Card, NUM_COMBOS};
use crate::game::Street;

verus! {

// ---------------------------------------------------------------------------
// Little-endian words
// ---------------------------------------------------------------------------

/// The four little-endian bytes of `x`.
pub open spec fn le32(x: u32) -> Seq<u8> {
    seq![(x % 256) as u8, ((x / 256) % 256) as u8, ((x / 65536) % 256) as u8, (x / 16777216) as u8]
}

/// The little-endian word at byte `k` of `b`.
pub open spec fn le32_at(b: Seq<u8>, k: int) -> u32 {
    (b[k] + 256 * b[k + 1] + 65536 * b[k + 2] + 16777216 * b[k + 3]) as u32
}

/// The bytes of the words of `s`, one after another.
pub open spec fn words(s: Seq<u32>) -> Seq<u8>
    decreases s.len(),
{
    if s.len() == 0 {
        Seq::empty()
    } else {
        words(s.drop_last()) + le32(s.last())
    }
}

/// The `count` words stored from byte `start` of `b`.
pub open spec fn words_at(b: Seq<u8>, start: int, count: int) -> Seq<u32> {
    Seq::new(count as nat, |i: int| le32_at(b, start + 4 * i))
}

/// Reading back the bytes of a word gives the word.
pub proof fn lemma_le32(x: u32, pre: Seq<u8>, post: Seq<u8>)
    ensures
        le32(x).len() == 4,
        le32_at(pre + le32(x) + post, pre.len() as int) == x,
{
    let b = pre + le32(x) + post;
    let k = pre.len() as int;
    assert(b[k] == (x % 256) as u8);
    assert(b[k + 1] == ((x / 256) % 256) as u8);
    assert(b[k + 2] == ((x / 65536) % 256) as u8);
    assert(b[k + 3] == (x / 16777216) as u8);
    assert(x == (x % 256) + 256 * ((x / 256) % 256) + 65536 * ((x / 65536) % 256) + 16777216 * (x
        / 16777216)) by (nonlinear_arith);
}

proof fn lemma_words_len(s: Seq<u32>)
    ensures
        words(s).len() == 4 * s.len(),
    decreases s.len(),
{
    if s.len() > 0 {
        lemma_words_len(s.drop_last());
    }
}

/// Reading back the bytes of words gives the words.
pub proof fn lemma_words(s: Seq<u32>, pre: Seq<u8>, post: Seq<u8>)
    ensures
        words(s).len() == 4 * s.len(),
        words_at(pre + words(s) + post, pre.len() as int, s.len() as int) == s,
    decreases s.len(),
{
    lemma_words_len(s);
    if s.len() > 0 {
        let init = s.drop_last();
        let last = s.last();
        lemma_words(init, pre, le32(last) + post);
        assert(pre + words(s) + post =~= pre + words(init) + (le32(last) + post));
        lemma_le32(last, pre + words(init), post);
        assert(pre + words(s) + post =~= (pre + words(init)) + le32(last) + post);
        let b = pre + words(s) + post;
        assert(words_at(b, pre.len() as int, s.len() as int) =~= s) by {
            assert forall|i: int| 0 <= i < s.len() implies #[trigger] words_at(
                b,
                pre.len() as int,
                s.len() as int,
            )[i] == s[i] by {
                if i < init.len() {
                    assert(words_at(b, pre.len() as int, init.len() as int)[i] == init[i]);
                }
            }
        }
    }
}

/// Appends the little-endian bytes of `x`.
fn push_u32(out: &mut Vec<u8>, x: u32)
    ensures
        final(out)@ == old(out)@ + le32(x),
{
    out.push((x % 256) as u8);
    out.push(((x / 256) % 256) as u8);
    out.push(((x / 65536) % 256) as u8);
    out.push((x / 16777216) as u8);
    assert(out@ =~= old(out)@ + le32(x));
}

/// Appends the bytes of the words of `a`.
fn push_words(out: &mut Vec<u8>, a: &[u32; NUM_COMBOS])
    ensures
        final(out)@ == old(out)@ + words(a@),
{
    let ghost start = out@;
    let mut i: usize = 0;
    while i < NUM_COMBOS
        invariant
            i <= NUM_COMBOS,
            out@ == start + words(a@.take(i as int)),
        decreases NUM_COMBOS - i,
    {
        push_u32(out, a[i]);
        proof {
            assert(a@.take(i as int + 1).drop_last() =~= a@.take(i as int));
            assert(start + words(a@.take(i as int)) + le32(a@[i as int]) =~= start + words(
                a@.take(i as int + 1),
            ));
        }
        i = i + 1;
    }
    assert(a@.take(NUM_COMBOS as int) =~= a@);
}

/// The little-endian word at byte `k`.
fn read_u32(b: &[u8], k: usize) -> (x: u32)
    requires
        k + 4 <= b@.len(),
    ensures
        x == le32_at(b@, k as int),
{
    let x = b[k] as u32 + 256 * b[k + 1] as u32 + 65536 * b[k + 2] as u32 + 16777216 * b[k + 3] as u32;
    x
}

/// The `NUM_COMBOS` words stored from byte `k`.
fn read_words(b: &[u8], k: usize) -> (a: [u32; NUM_COMBOS])
    requires
        k + 4 * NUM_COMBOS <= b@.len(),
    ensures
        a@ == words_at(b@, k as int, NUM_COMBOS as int),
{
    let n = b.len();
    let mut a = [0u32; NUM_COMBOS];
    let mut i: usize = 0;
    while i < NUM_COMBOS
        invariant
            i <= NUM_COMBOS,
            n == b@.len(),
            k + 4 * NUM_COMBOS <= b@.len(),
            forall|j: int| 0 <= j < i ==> #[trigger] a[j] == le32_at(b@, k + 4 * j),
        decreases NUM_COMBOS - i,
    {
        let x = read_u32(b, k + 4 * i);
        let ghost prev = a;
        a[i] = x;
        assert forall|j: int| 0 <= j < i + 1 implies #[trigger] a[j] == le32_at(b@, k + 4 * j) by {
            if j < i {
                assert(a[j] == prev[j]);
            }
        }
        i = i + 1;
    }
    assert(a@ =~= words_at(b@, k as int, NUM_COMBOS as int));
    a
}

/// Reading the bytes of a word gives the word.
proof fn lemma_le32_sub(b: Seq<u8>, k: int, x: u32)
    requires
        0 <= k,
        k + 4 <= b.len(),
        b.subrange(k, k + 4) == le32(x),
    ensures
        le32_at(b, k) == x,
{
    lemma_le32(x, b.subrange(0, k), b.subrange(k + 4, b.len() as int));
    assert(b =~= b.subrange(0, k) + le32(x) + b.subrange(k + 4, b.len() as int));
}

/// Reading the bytes of words gives the words.
proof fn lemma_words_sub(b: Seq<u8>, k: int, s: Seq<u32>)
    requires
        0 <= k,
        k + 4 * s.len() <= b.len(),
        b.subrange(k, k + 4 * s.len()) == words(s),
    ensures
        words_at(b, k, s.len() as int) == s,
{
    lemma_words(s, b.subrange(0, k), b.subrange(k + 4 * s.len(), b.len() as int));
    lemma_words_len(s);
    assert(b =~= b.subrange(0, k) + words(s) + b.subrange(k + 4 * s.len(), b.len() as int));
}

// ---------------------------------------------------------------------------
// Training samples
// ---------------------------------------------------------------------------

/// "PGS1": the first bytes of a sample file.
pub open spec fn sample_magic() -> Seq<u8> {
    seq![80u8, 71u8, 83u8, 49u8]
}

/// "PGSE": the first bytes of an equity file.
pub open spec fn equity_magic() -> Seq<u8> {
    seq![80u8, 71u8, 83u8, 69u8]
}

/// The version of the sample format.
pub const FORMAT_VERSION: u32 = 1;

/// Bytes of one sample: street, five board slots, pot and two stacks, the two ranges and
/// the two EV vectors of `NUM_COMBOS` words each, iterations and exploitability.
pub const SAMPLE_BYTES: usize = 21242;

/// One solved subgame with per-combo EVs.
pub struct SampleRecord {
    pub board: Vec<Card>,
    pub street: Street,
    pub pot: i32,
    pub stacks: [i32; 2],
    /// Range weights of OOP then IP, by combo index, as `f32` bit patterns.
    pub ranges: [[u32; NUM_COMBOS]; 2],
    /// Per-combo EVs of OOP then IP, as `f32` bit patterns.
    pub ev: [[u32; NUM_COMBOS]; 2],
    pub iterations: u32,
    /// Exploitability in percent of the pot, as an `f32` bit pattern.
    pub exploitability_pct: u32,
}

/// Five board slots: the first five cards, 0xFF for unused slots.
pub open spec fn board_slots(board: Seq<u8>) -> Seq<u8> {
    Seq::new(5, |i: int| if i < board.len() { board[i] } else { 0xFFu8 })
}

/// The bytes of one sample.
pub open spec fn sample_bytes(s: SampleRecord) -> Seq<u8> {
    seq![s.street.spec_index() as u8] + board_slots(s.board@) + le32(s.pot as u32) + le32(
        s.stacks[0] as u32,
    ) + le32(s.stacks[1] as u32) + words(s.ranges[0]@) + words(s.ranges[1]@) + words(s.ev[0]@)
        + words(s.ev[1]@) + le32(s.iterations) + le32(s.exploitability_pct)
}

/// The bytes of the samples, one after another.
pub open spec fn samples_bytes(v: Seq<SampleRecord>) -> Seq<u8>
    decreases v.len(),
{
    if v.len() == 0 {
        Seq::empty()
    } else {
        samples_bytes(v.drop_last()) + sample_bytes(v.last())
    }
}

/// A sample file: magic, version, sample count, then the samples.
pub open spec fn sample_file(v: Seq<SampleRecord>) -> Seq<u8> {
    sample_magic() + le32(FORMAT_VERSION) + le32(v.len() as u32) + samples_bytes(v)
}

fn push_sample(out: &mut Vec<u8>, s: &SampleRecord)
    ensures
        final(out)@ == old(out)@ + sample_bytes(*s),
{
    let ghost start = out@;
    out.push(s.street.index() as u8);
    let mut i: usize = 0;
    while i < 5
        invariant
            i <= 5,
            out@ == start + seq![s.street.spec_index() as u8] + board_slots(s.board@).take(i as int),
        decreases 5 - i,
    {
        if i < s.board.len() {
            out.push(s.board[i]);
        } else {
            out.push(0xFF);
        }
        assert(board_slots(s.board@).take(i as int + 1) =~= board_slots(s.board@).take(i as int).push(
            board_slots(s.board@)[i as int],
        ));
        i = i + 1;
    }
    assert(board_slots(s.board@).take(5) =~= board_slots(s.board@));
    push_u32(out, s.pot as u32);
    push_u32(out, s.stacks[0] as u32);
    push_u32(out, s.stacks[1] as u32);
    push_words(out, &s.ranges[0]);
    push_words(out, &s.ranges[1]);
    push_words(out, &s.ev[0]);
    push_words(out, &s.ev[1]);
    push_u32(out, s.iterations);
    push_u32(out, s.exploitability_pct);
    assert(out@ =~= start + sample_bytes(*s));
}

/// The bytes of a sample file holding `samples` (the count is taken modulo 2^32).
pub fn encode_samples(samples: &[SampleRecord]) -> (out: Vec<u8>)
    ensures
        out@ == sample_file(samples@),
{
    let mut out: Vec<u8> = Vec::new();
    out.push(80);
    out.push(71);
    out.push(83);
    out.push(49);
    push_u32(&mut out, FORMAT_VERSION);
    push_u32(&mut out, samples.len() as u32);
    let ghost head = out@;
    assert(head =~= sample_magic() + le32(FORMAT_VERSION) + le32(samples@.len() as u32));
    let mut i: usize = 0;
    while i < samples.len()
        invariant
            i <= samples@.len(),
            out@ == head + samples_bytes(samples@.take(i as int)),
        decreases samples@.len() - i,
    {
        push_sample(&mut out, &samples[i]);
        assert(samples@.take(i as int + 1).drop_last() =~= samples@.take(i as int));
        assert(head + samples_bytes(samples@.take(i as int)) + sample_bytes(samples@[i as int])
            =~= head + samples_bytes(samples@.take(i as int + 1)));
        i = i + 1;
    }
    assert(samples@.take(i as int) =~= samples@);
    out
}

/// Why a sample file could not be read.
#[derive(Debug, Clone, Copy, PartialEq, Eq, Structural)]
pub enum SampleError {
    /// The bytes end before the data they announce.
    Truncated,
    /// The file does not start with "PGS1".
    BadMagic,
    /// The format version is not `FORMAT_VERSION`.
    BadVersion,
    /// A sample's street byte is neither turn (2) nor river (3).
    BadStreet(u8),
}

/// Board cards stored for a street byte: four on the turn, five on the river.
pub open spec fn stored_board_len(street_byte: u8) -> int {
    if street_byte == 2 {
        4
    } else {
        5
    }
}

/// The sample stored from byte `k` of `b` is `s`.
pub open spec fn sample_at(b: Seq<u8>, k: int, s: SampleRecord) -> bool {
    &&& b[k] == 2 || b[k] == 3
    &&& s.street == if b[k] == 2 {
        Street::Turn
    } else {
        Street::River
    }
    &&& s.board@ == b.subrange(k + 1, k + 1 + stored_board_len(b[k]))
    &&& s.pot == le32_at(b, k + 6) as i32
    &&& s.stacks[0] == le32_at(b, k + 10) as i32
    &&& s.stacks[1] == le32_at(b, k + 14) as i32
    &&& s.ranges[0]@ == words_at(b, k + 18, NUM_COMBOS as int)
    &&& s.ranges[1]@ == words_at(b, k + 5322, NUM_COMBOS as int)
    &&& s.ev[0]@ == words_at(b, k + 10626, NUM_COMBOS as int)
    &&& s.ev[1]@ == words_at(b, k + 15930, NUM_COMBOS as int)
    &&& s.iterations == le32_at(b, k + 21234)
    &&& s.exploitability_pct == le32_at(b, k + 21238)
}

/// Reading samples `j..n`: each needs its street byte, which must name the turn or the
/// river, and then the rest of its bytes.
pub open spec fn samples_outcome(b: Seq<u8>, n: int, j: int) -> Result<(), SampleError>
    decreases n - j,
{
    if j >= n {
        Ok(())
    } else {
        let k = 12 + j * SAMPLE_BYTES;
        if b.len() < k + 1 {
            Err(SampleError::Truncated)
        } else if b[k] != 2 && b[k] != 3 {
            Err(SampleError::BadStreet(b[k]))
        } else if b.len() < k + SAMPLE_BYTES {
            Err(SampleError::Truncated)
        } else {
            samples_outcome(b, n, j + 1)
        }
    }
}

/// Reading a sample file: magic, version and count, then the announced samples; bytes
/// after them are ignored.
pub open spec fn decode_outcome(b: Seq<u8>) -> Result<(), SampleError> {
    if b.len() < 4 {
        Err(SampleError::Truncated)
    } else if b.subrange(0, 4) != sample_magic() {
        Err(SampleError::BadMagic)
    } else if b.len() < 8 {
        Err(SampleError::Truncated)
    } else if le32_at(b, 4) != FORMAT_VERSION {
        Err(SampleError::BadVersion)
    } else if b.len() < 12 {
        Err(SampleError::Truncated)
    } else {
        samples_outcome(b, le32_at(b, 8) as int, 0)
    }
}

fn read_i32(b: &[u8], k: usize) -> (x: i32)
    requires
        k + 4 <= b@.len(),
    ensures
        x == le32_at(b@, k as int) as i32,
{
    read_u32(b, k) as i32
}

/// The sample stored from byte `k`, whose street byte is valid.
fn read_sample(b: &[u8], k: usize) -> (s: SampleRecord)
    requires
        k + SAMPLE_BYTES <= b@.len(),
        b@[k as int] == 2 || b@[k as int] == 3,
    ensures
        sample_at(b@, k as int, s),
{
    let street = if b[k] == 2 {
        Street::Turn
    } else {
        Street::River
    };
    let n_board: usize = if b[k] == 2 {
        4
    } else {
        5
    };
    let len = b.len();
    let mut board: Vec<Card> = Vec::new();
    let mut i: usize = 0;
    while i < n_board
        invariant
            len == b@.len(),
            i <= n_board,
            n_board == stored_board_len(b@[k as int]),
            k + SAMPLE_BYTES <= b@.len(),
            board@ == b@.subrange(k + 1, k + 1 + i),
        decreases n_board - i,
    {
        board.push(b[k + 1 + i]);
        i = i + 1;
        assert(board@ =~= b@.subrange(k + 1, k + 1 + i));
    }
    SampleRecord {
        board,
        street,
        pot: read_i32(b, k + 6),
        stacks: [read_i32(b, k + 10), read_i32(b, k + 14)],
        ranges: [read_words(b, k + 18), read_words(b, k + 5322)],
        ev: [read_words(b, k + 10626), read_words(b, k + 15930)],
        iterations: read_u32(b, k + 21234),
        exploitability_pct: read_u32(b, k + 21238),
    }
}

/// Read a sample file (see `decode_outcome`): the samples announced, each as stored.
pub fn decode_samples(b: &[u8]) -> (r: Result<Vec<SampleRecord>, SampleError>)
    ensures
        match r {
            Ok(v) => {
                &&& decode_outcome(b@) == Ok::<(), SampleError>(())
                &&& v@.len() == le32_at(b@, 8)
                &&& forall|j: int| 0 <= j < v@.len() ==> sample_at(b@, 12 + j * SAMPLE_BYTES, #[trigger] v@[j])
            },
            Err(e) => decode_outcome(b@) == Err::<(), SampleError>(e),
        },
{
    let len = b.len();
    if len < 4 {
        return Err(SampleError::Truncated);
    }
    if !(b[0] == 80 && b[1] == 71 && b[2] == 83 && b[3] == 49) {
        assert(b@.subrange(0, 4) != sample_magic()) by {
            if b@.subrange(0, 4) == sample_magic() {
                assert(b@.subrange(0, 4)[0] == b@[0]);
                assert(b@.subrange(0, 4)[1] == b@[1]);
                assert(b@.subrange(0, 4)[2] == b@[2]);
                assert(b@.subrange(0, 4)[3] == b@[3]);
            }
        }
        return Err(SampleError::BadMagic);
    }
    assert(b@.subrange(0, 4) =~= sample_magic());
    if len < 8 {
        return Err(SampleError::Truncated);
    }
    if read_u32(b, 4) != FORMAT_VERSION {
        return Err(SampleError::BadVersion);
    }
    if len < 12 {
        return Err(SampleError::Truncated);
    }
    let n = read_u32(b, 8);
    let mut samples: Vec<SampleRecord> = Vec::new();
    let mut k: usize = 12;
    let mut j: u32 = 0;
    while j < n
        invariant
            len == b@.len(),
            j <= n,
            n == le32_at(b@, 8),
            k == 12 + j * SAMPLE_BYTES,
            k <= len,
            decode_outcome(b@) == samples_outcome(b@, n as int, j as int),
            samples@.len() == j,
            forall|i: int| 0 <= i < j ==> sample_at(b@, 12 + i * SAMPLE_BYTES, #[trigger] samples@[i]),
        decreases n - j,
    {
        if len - k < 1 {
            return Err(SampleError::Truncated);
        }
        if b[k] != 2 && b[k] != 3 {
            return Err(SampleError::BadStreet(b[k]));
        }
        if len - k < SAMPLE_BYTES {
            return Err(SampleError::Truncated);
        }
        let s = read_sample(b, k);
        samples.push(s);
        k = k + SAMPLE_BYTES;
        j = j + 1;
        assert forall|i: int| 0 <= i < j implies sample_at(
            b@,
            12 + i * SAMPLE_BYTES,
            #[trigger] samples@[i],
        ) by {
            if i == j - 1 {
                assert(12 + i * SAMPLE_BYTES == k - SAMPLE_BYTES);
            }
        }
    }
    Ok(samples)
}

/// A sample that reads back as written: a turn sample with four board cards or a river
/// sample with five.
pub open spec fn storable(s: SampleRecord) -> bool {
    ||| s.street == Street::Turn && s.board@.len() == 4
    ||| s.street == Street::River && s.board@.len() == 5
}

proof fn lemma_sample_len(s: SampleRecord)
    ensures
        sample_bytes(s).len() == SAMPLE_BYTES,
{
    lemma_words_len(s.ranges[0]@);
    lemma_words_len(s.ranges[1]@);
    lemma_words_len(s.ev[0]@);
    lemma_words_len(s.ev[1]@);
}

proof fn lemma_samples_bytes(v: Seq<SampleRecord>, j: int)
    requires
        0 <= j < v.len(),
    ensures
        samples_bytes(v).len() == v.len() * SAMPLE_BYTES,
        samples_bytes(v).subrange(j * SAMPLE_BYTES, (j + 1) * SAMPLE_BYTES) == sample_bytes(v[j]),
    decreases v.len(),
{
    let init = v.drop_last();
    lemma_sample_len(v.last());
    if init.len() > 0 {
        lemma_samples_bytes(init, if j < init.len() { j } else { 0 });
    } else {
        assert(samples_bytes(init) =~= Seq::empty());
    }
    assert(samples_bytes(v).len() == v.len() * SAMPLE_BYTES) by (nonlinear_arith)
        requires
            samples_bytes(v).len() == samples_bytes(init).len() + SAMPLE_BYTES,
            samples_bytes(init).len() == init.len() * SAMPLE_BYTES,
            v.len() == init.len() + 1,
    ;
    assert(j * SAMPLE_BYTES + SAMPLE_BYTES == (j + 1) * SAMPLE_BYTES) by (nonlinear_arith);
    if j < init.len() {
        assert((j + 1) * SAMPLE_BYTES <= init.len() * SAMPLE_BYTES) by (nonlinear_arith)
            requires
                j + 1 <= init.len(),
        ;
        assert(init[j] == v[j]);
        assert(samples_bytes(v).subrange(j * SAMPLE_BYTES, (j + 1) * SAMPLE_BYTES) =~= samples_bytes(
            init,
        ).subrange(j * SAMPLE_BYTES, (j + 1) * SAMPLE_BYTES));
    } else {
        assert(samples_bytes(v).subrange(j * SAMPLE_BYTES, (j + 1) * SAMPLE_BYTES) =~= sample_bytes(
            v.last(),
        ));
    }
}

proof fn lemma_i32_bits(x: i32)
    ensures
        (x as u32) as i32 == x,
{
    assert((x as u32) as i32 == x) by (bit_vector);
}

/// The bytes at offset `off` of a stored sample are part `x` of its bytes.
proof fn lemma_part(b: Seq<u8>, k: int, s: SampleRecord, off: int, x: Seq<u8>)
    requires
        0 <= k,
        0 <= off,
        off + x.len() <= SAMPLE_BYTES,
        k + SAMPLE_BYTES <= b.len(),
        b.subrange(k, k + SAMPLE_BYTES) == sample_bytes(s),
        forall|i: int| 0 <= i < x.len() ==> #[trigger] sample_bytes(s)[off + i] == x[i],
    ensures
        b.subrange(k + off, k + off + x.len()) == x,
{
    assert forall|i: int| 0 <= i < x.len() implies #[trigger] b.subrange(k + off, k + off + x.len())[i]
        == x[i] by {
        assert(b.subrange(k, k + SAMPLE_BYTES)[off + i] == b[k + off + i]);
    }
    assert(b.subrange(k + off, k + off + x.len()) =~= x);
}

/// The layout of a sample's bytes.
proof fn lemma_sample_layout(s: SampleRecord)
    ensures
        sample_bytes(s).len() == SAMPLE_BYTES,
        sample_bytes(s)[0] == s.street.spec_index() as u8,
        forall|i: int| 0 <= i < 5 ==> #[trigger] sample_bytes(s)[1 + i] == board_slots(s.board@)[i],
        forall|i: int| 0 <= i < 4 ==> #[trigger] sample_bytes(s)[6 + i] == le32(s.pot as u32)[i],
        forall|i: int| 0 <= i < 4 ==> #[trigger] sample_bytes(s)[10 + i] == le32(s.stacks[0] as u32)[i],
        forall|i: int| 0 <= i < 4 ==> #[trigger] sample_bytes(s)[14 + i] == le32(s.stacks[1] as u32)[i],
        forall|i: int| 0 <= i < 5304 ==> #[trigger] sample_bytes(s)[18 + i] == words(s.ranges[0]@)[i],
        forall|i: int| 0 <= i < 5304 ==> #[trigger] sample_bytes(s)[5322 + i] == words(s.ranges[1]@)[i],
        forall|i: int| 0 <= i < 5304 ==> #[trigger] sample_bytes(s)[10626 + i] == words(s.ev[0]@)[i],
        forall|i: int| 0 <= i < 5304 ==> #[trigger] sample_bytes(s)[15930 + i] == words(s.ev[1]@)[i],
        forall|i: int| 0 <= i < 4 ==> #[trigger] sample_bytes(s)[21234 + i] == le32(s.iterations)[i],
        forall|i: int| 0 <= i < 4 ==> #[trigger] sample_bytes(s)[21238 + i] == le32(s.exploitability_pct)[i],
{
    lemma_words_len(s.ranges[0]@);
    lemma_words_len(s.ranges[1]@);
    lemma_words_len(s.ev[0]@);
    lemma_words_len(s.ev[1]@);
}

/// The bytes of a storable sample read back as that sample.
proof fn lemma_sample_at(b: Seq<u8>, k: int, s: SampleRecord)
    requires
        storable(s),
        0 <= k,
        k + SAMPLE_BYTES <= b.len(),
        b.subrange(k, k + SAMPLE_BYTES) == sample_bytes(s),
    ensures
        sample_at(b, k, s),
{
    lemma_sample_layout(s);
    lemma_words_len(s.ranges[0]@);
    lemma_words_len(s.ranges[1]@);
    lemma_words_len(s.ev[0]@);
    lemma_words_len(s.ev[1]@);
    assert(b[k] == b.subrange(k, k + SAMPLE_BYTES)[0]);
    let n = stored_board_len(b[k]);
    let board = s.board@;
    assert forall|i: int| 0 <= i < n implies #[trigger] sample_bytes(s)[1 + i] == board[i] by {
        assert(sample_bytes(s)[1 + i] == board_slots(board)[i]);
    }
    lemma_part(b, k, s, 1, board);
    lemma_part(b, k, s, 6, le32(s.pot as u32));
    lemma_le32_sub(b, k + 6, s.pot as u32);
    lemma_i32_bits(s.pot);
    lemma_part(b, k, s, 10, le32(s.stacks[0] as u32));
    lemma_le32_sub(b, k + 10, s.stacks[0] as u32);
    lemma_i32_bits(s.stacks[0]);
    lemma_part(b, k, s, 14, le32(s.stacks[1] as u32));
    lemma_le32_sub(b, k + 14, s.stacks[1] as u32);
    lemma_i32_bits(s.stacks[1]);
    lemma_part(b, k, s, 18, words(s.ranges[0]@));
    lemma_words_sub(b, k + 18, s.ranges[0]@);
    lemma_part(b, k, s, 5322, words(s.ranges[1]@));
    lemma_words_sub(b, k + 5322, s.ranges[1]@);
    lemma_part(b, k, s, 10626, words(s.ev[0]@));
    lemma_words_sub(b, k + 10626, s.ev[0]@);
    lemma_part(b, k, s, 15930, words(s.ev[1]@));
    lemma_words_sub(b, k + 15930, s.ev[1]@);
    lemma_part(b, k, s, 21234, le32(s.iterations));
    lemma_le32_sub(b, k + 21234, s.iterations);
    lemma_part(b, k, s, 21238, le32(s.exploitability_pct));
    lemma_le32_sub(b, k + 21238, s.exploitability_pct);
}

proof fn lemma_file_sample(v: Seq<SampleRecord>, j: int)
    requires
        0 <= j < v.len(),
    ensures
        sample_file(v).len() == 12 + v.len() * SAMPLE_BYTES,
        12 + (j + 1) * SAMPLE_BYTES <= sample_file(v).len(),
        sample_file(v).subrange(12 + j * SAMPLE_BYTES, 12 + j * SAMPLE_BYTES + SAMPLE_BYTES)
            == sample_bytes(v[j]),
{
    let b = sample_file(v);
    let head = sample_magic() + le32(FORMAT_VERSION) + le32(v.len() as u32);
    lemma_samples_bytes(v, j);
    assert(j * SAMPLE_BYTES + SAMPLE_BYTES == (j + 1) * SAMPLE_BYTES) by (nonlinear_arith);
    assert((j + 1) * SAMPLE_BYTES <= v.len() * SAMPLE_BYTES) by (nonlinear_arith)
        requires
            j + 1 <= v.len(),
    ;
    assert(b.subrange(12 + j * SAMPLE_BYTES, 12 + j * SAMPLE_BYTES + SAMPLE_BYTES) =~= samples_bytes(
        v,
    ).subrange(j * SAMPLE_BYTES, (j + 1) * SAMPLE_BYTES));
}

/// Sample `i` of `b` is complete and names the turn or the river.
pub open spec fn stored_sample_ok(b: Seq<u8>, i: int) -> bool {
    &&& 12 + (i + 1) * SAMPLE_BYTES <= b.len()
    &&& (b[12 + i * SAMPLE_BYTES] == 2 || b[12 + i * SAMPLE_BYTES] == 3)
}

proof fn lemma_outcome_ok(b: Seq<u8>, n: int, j: int)
    requires
        0 <= j <= n,
        forall|i: int| j <= i < n ==> #[trigger] stored_sample_ok(b, i),
    ensures
        samples_outcome(b, n, j) == Ok::<(), SampleError>(()),
    decreases n - j,
{
    if j < n {
        assert(stored_sample_ok(b, j));
        assert(12 + (j + 1) * SAMPLE_BYTES == 12 + j * SAMPLE_BYTES + SAMPLE_BYTES) by (nonlinear_arith);
        lemma_outcome_ok(b, n, j + 1);
    }
}

/// Writing samples and reading the bytes back gives the samples: the file reads without
/// error, announces as many samples as were written, and stores each as it was.
pub proof fn law_samples_roundtrip(v: Seq<SampleRecord>)
    requires
        v.len() <= u32::MAX,
        forall|j: int| 0 <= j < v.len() ==> storable(#[trigger] v[j]),
    ensures
        decode_outcome(sample_file(v)) == Ok::<(), SampleError>(()),
        le32_at(sample_file(v), 8) == v.len(),
        forall|j: int|
            0 <= j < v.len() ==> sample_at(sample_file(v), 12 + j * SAMPLE_BYTES, #[trigger] v[j]),
{
    let b = sample_file(v);
    let n = v.len() as int;
    lemma_le32(FORMAT_VERSION, sample_magic(), le32(v.len() as u32) + samples_bytes(v));
    assert(b =~= sample_magic() + le32(FORMAT_VERSION) + (le32(v.len() as u32) + samples_bytes(v)));
    lemma_le32(v.len() as u32, sample_magic() + le32(FORMAT_VERSION), samples_bytes(v));
    assert(b.subrange(0, 4) =~= sample_magic());
    assert forall|j: int| 0 <= j < n implies sample_at(b, 12 + j * SAMPLE_BYTES, #[trigger] v[j]) by {
        lemma_file_sample(v, j);
        lemma_sample_at(b, 12 + j * SAMPLE_BYTES, v[j]);
    }
    assert forall|i: int| 0 <= i < n implies #[trigger] stored_sample_ok(b, i) by {
        lemma_file_sample(v, i);
        assert(sample_at(b, 12 + i * SAMPLE_BYTES, v[i]));
    }
    if n > 0 {
        lemma_file_sample(v, 0);
    } else {
        assert(samples_bytes(v) =~= Seq::empty());
    }
    lemma_outcome_ok(b, n, 0);
}

// ---------------------------------------------------------------------------
// Equity companion files
// ---------------------------------------------------------------------------

/// Bytes of one equity record: two vectors of `NUM_COMBOS` words.
pub const EQUITY_BYTES: usize = 10608;

/// The bytes of one equity record (OOP then IP).
pub open spec fn equity_bytes(e: [[u32; NUM_COMBOS]; 2]) -> Seq<u8> {
    words(e[0]@) + words(e[1]@)
}

pub open spec fn equities_bytes(v: Seq<[[u32; NUM_COMBOS]; 2]>) -> Seq<u8>
    decreases v.len(),
{
    if v.len() == 0 {
        Seq::empty()
    } else {
        equities_bytes(v.drop_last()) + equity_bytes(v.last())
    }
}

/// An equity file: magic, record count, then the records.
pub open spec fn equity_file(v: Seq<[[u32; NUM_COMBOS]; 2]>) -> Seq<u8> {
    equity_magic() + le32(v.len() as u32) + equities_bytes(v)
}

/// The bytes of an equity file holding `data` (the count is taken modulo 2^32).
pub fn encode_equity(data: &[[[u32; NUM_COMBOS]; 2]]) -> (out: Vec<u8>)
    ensures
        out@ == equity_file(data@),
{
    let mut out: Vec<u8> = Vec::new();
    out.push(80);
    out.push(71);
    out.push(83);
    out.push(69);
    push_u32(&mut out, data.len() as u32);
    let ghost head = out@;
    assert(head =~= equity_magic() + le32(data@.len() as u32));
    let mut i: usize = 0;
    while i < data.len()
        invariant
            i <= data@.len(),
            out@ == head + equities_bytes(data@.take(i as int)),
        decreases data@.len() - i,
    {
        push_words(&mut out, &data[i][0]);
        push_words(&mut out, &data[i][1]);
        assert(data@.take(i as int + 1).drop_last() =~= data@.take(i as int));
        assert(head + equities_bytes(data@.take(i as int)) + words(data@[i as int][0]@) + words(
            data@[i as int][1]@,
        ) =~= head + equities_bytes(data@.take(i as int + 1)));
        i = i + 1;
    }
    assert(data@.take(i as int) =~= data@);
    out
}

/// The equity record stored from byte `k` of `b` is `e`.
pub open spec fn equity_at(b: Seq<u8>, k: int, e: [[u32; NUM_COMBOS]; 2]) -> bool {
    &&& e[0]@ == words_at(b, k, NUM_COMBOS as int)
    &&& e[1]@ == words_at(b, k + 5304, NUM_COMBOS as int)
}

/// Reading an equity file: magic and count, then the announced records; bytes after
/// them are ignored.
pub open spec fn equity_outcome(b: Seq<u8>) -> Result<(), SampleError> {
    if b.len() < 4 {
        Err(SampleError::Truncated)
    } else if b.subrange(0, 4) != equity_magic() {
        Err(SampleError::BadMagic)
    } else if b.len() < 8 {
        Err(SampleError::Truncated)
    } else if b.len() < 8 + le32_at(b, 4) * EQUITY_BYTES {
        Err(SampleError::Truncated)
    } else {
        Ok(())
    }
}

/// Read an equity file (see `equity_outcome`): the records announced, each as stored.
pub fn decode_equity(b: &[u8]) -> (r: Result<Vec<[[u32; NUM_COMBOS]; 2]>, SampleError>)
    ensures
        match r {
            Ok(v) => {
                &&& equity_outcome(b@) == Ok::<(), SampleError>(())
                &&& v@.len() == le32_at(b@, 4)
                &&& forall|j: int| 0 <= j < v@.len() ==> equity_at(b@, 8 + j * EQUITY_BYTES, #[trigger] v@[j])
            },
            Err(e) => equity_outcome(b@) == Err::<(), SampleError>(e),
        },
{
    let len = b.len();
    if len < 4 {
        return Err(SampleError::Truncated);
    }
    if !(b[0] == 80 && b[1] == 71 && b[2] == 83 && b[3] == 69) {
        assert(b@.subrange(0, 4) != equity_magic()) by {
            if b@.subrange(0, 4) == equity_magic() {
                assert(b@.subrange(0, 4)[0] == b@[0]);
                assert(b@.subrange(0, 4)[1] == b@[1]);
                assert(b@.subrange(0, 4)[2] == b@[2]);
                assert(b@.subrange(0, 4)[3] == b@[3]);
            }
        }
        return Err(SampleError::BadMagic);
    }
    assert(b@.subrange(0, 4) =~= equity_magic());
    if len < 8 {
        return Err(SampleError::Truncated);
    }
    let n = read_u32(b, 4);
    let mut data: Vec<[[u32; NUM_COMBOS]; 2]> = Vec::new();
    let mut k: usize = 8;
    let mut j: u32 = 0;
    while j < n
        invariant
            len == b@.len(),
            len >= 8,
            b@.subrange(0, 4) == equity_magic(),
            j <= n,
            n == le32_at(b@, 4),
            k == 8 + j * EQUITY_BYTES,
            k <= len,
            data@.len() == j,
            forall|i: int| 0 <= i < j ==> equity_at(b@, 8 + i * EQUITY_BYTES, #[trigger] data@[i]),
        decreases n - j,
    {
        if len - k < EQUITY_BYTES {
            proof {
                assert(8 + n * EQUITY_BYTES >= 8 + (j + 1) * EQUITY_BYTES) by (nonlinear_arith)
                    requires
                        j + 1 <= n,
                ;
            }
            return Err(SampleError::Truncated);
        }
        let e = [read_words(b, k), read_words(b, k + 5304)];
        data.push(e);
        k = k + EQUITY_BYTES;
        j = j + 1;
        assert forall|i: int| 0 <= i < j implies equity_at(
            b@,
            8 + i * EQUITY_BYTES,
            #[trigger] data@[i],
        ) by {
            if i == j - 1 {
                assert(8 + i * EQUITY_BYTES == k - EQUITY_BYTES);
            }
        }
    }
    Ok(data)
}

proof fn lemma_equities_bytes(v: Seq<[[u32; NUM_COMBOS]; 2]>, j: int)
    requires
        0 <= j < v.len(),
    ensures
        equities_bytes(v).len() == v.len() * EQUITY_BYTES,
        equities_bytes(v).subrange(j * EQUITY_BYTES, (j + 1) * EQUITY_BYTES) == equity_bytes(v[j]),
    decreases v.len(),
{
    let init = v.drop_last();
    lemma_words_len(v.last()[0]@);
    lemma_words_len(v.last()[1]@);
    if init.len() > 0 {
        lemma_equities_bytes(init, if j < init.len() { j } else { 0 });
    } else {
        assert(equities_bytes(init) =~= Seq::empty());
    }
    assert(equities_bytes(v).len() == v.len() * EQUITY_BYTES) by (nonlinear_arith)
        requires
            equities_bytes(v).len() == equities_bytes(init).len() + EQUITY_BYTES,
            equities_bytes(init).len() == init.len() * EQUITY_BYTES,
            v.len() == init.len() + 1,
    ;
    assert(j * EQUITY_BYTES + EQUITY_BYTES == (j + 1) * EQUITY_BYTES) by (nonlinear_arith);
    if j < init.len() {
        assert((j + 1) * EQUITY_BYTES <= init.len() * EQUITY_BYTES) by (nonlinear_arith)
            requires
                j + 1 <= init.len(),
        ;
        assert(init[j] == v[j]);
        assert(equities_bytes(v).subrange(j * EQUITY_BYTES, (j + 1) * EQUITY_BYTES) =~= equities_bytes(
            init,
        ).subrange(j * EQUITY_BYTES, (j + 1) * EQUITY_BYTES));
    } else {
        assert(equities_bytes(v).subrange(j * EQUITY_BYTES, (j + 1) * EQUITY_BYTES) =~= equity_bytes(
            v.last(),
        ));
    }
}

/// Writing equity records and reading the bytes back gives the records.
pub proof fn law_equity_roundtrip(v: Seq<[[u32; NUM_COMBOS]; 2]>)
    requires
        v.len() <= u32::MAX,
    ensures
        equity_outcome(equity_file(v)) == Ok::<(), SampleError>(()),
        le32_at(equity_file(v), 4) == v.len(),
        forall|j: int|
            0 <= j < v.len() ==> equity_at(equity_file(v), 8 + j * EQUITY_BYTES, #[trigger] v[j]),
{
    let b = equity_file(v);
    let n = v.len() as int;
    lemma_le32(v.len() as u32, equity_magic(), equities_bytes(v));
    assert(b.subrange(0, 4) =~= equity_magic());
    if n > 0 {
        lemma_equities_bytes(v, 0);
    } else {
        assert(equities_bytes(v) =~= Seq::empty());
    }
    assert forall|j: int| 0 <= j < n implies equity_at(b, 8 + j * EQUITY_BYTES, #[trigger] v[j]) by {
        lemma_equities_bytes(v, j);
        let k = 8 + j * EQUITY_BYTES;
        let e = v[j];
        lemma_words_len(e[0]@);
        lemma_words_len(e[1]@);
        assert(j * EQUITY_BYTES + EQUITY_BYTES == (j + 1) * EQUITY_BYTES) by (nonlinear_arith);
        assert((j + 1) * EQUITY_BYTES <= n * EQUITY_BYTES) by (nonlinear_arith)
            requires
                j + 1 <= n,
        ;
        assert(b.subrange(k, k + 5304) =~= words(e[0]@)) by {
            assert forall|i: int| 0 <= i < 5304 implies #[trigger] b.subrange(k, k + 5304)[i] == words(
                e[0]@,
            )[i] by {
                assert(equities_bytes(v).subrange(j * EQUITY_BYTES, (j + 1) * EQUITY_BYTES)[i]
                    == equity_bytes(e)[i]);
            }
        }
        lemma_words_sub(b, k, e[0]@);
        assert(b.subrange(k + 5304, k + 10608) =~= words(e[1]@)) by {
            assert forall|i: int| 0 <= i < 5304 implies #[trigger] b.subrange(k + 5304, k + 10608)[i]
                == words(e[1]@)[i] by {
                assert(equities_bytes(v).subrange(j * EQUITY_BYTES, (j + 1) * EQUITY_BYTES)[5304 + i]
                    == equity_bytes(e)[5304 + i]);
            }
        }
        lemma_words_sub(b, k + 5304, e[1]@);
    }
}

} // verus!
