//! Heads-up no-limit hold'em game logic for a subgame solver: cards and combos, suit
//! isomorphism, the betting game state and its legal actions, hand buckets, single-size
//! candidates, compact combo indexing, and the location of locked decision nodes.
pub mod card;
pub mod text;
pub mod iso;
pub mod game;
pub mod auto_size;
pub mod buckets;
pub mod combo_map;
pub mod export;
pub mod samples;
pub mod nodelock;
