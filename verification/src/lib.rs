mod counting;
mod random;
pub mod text;
pub mod card;
pub mod card_data;
pub mod card_play;
pub mod card_reward;
pub mod card_text;
pub mod combat;
pub mod contract_map;
pub mod contract_walk;
pub mod deck;
pub mod encounter_text;
pub mod events;
pub mod knowledge;
pub mod noise_meter;
pub mod player;
pub mod run_deck;
pub mod run_state;
pub mod sentry;
pub mod starter_deck;
