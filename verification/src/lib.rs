pub mod field_presets;
pub mod game_of_life;
pub mod scale;
pub mod viewport;
