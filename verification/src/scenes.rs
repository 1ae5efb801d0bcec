pub mod activity;
pub mod app_laws;
pub mod apps;
pub mod arc;
pub mod face_laws;
pub mod flourish;
pub mod gallery;
pub mod gallery_laws;
pub mod lock;
pub mod lock_damage;
pub mod lock_laws;
pub mod morph_laws;
pub mod picture;
pub mod pool;
pub mod rest_laws;
pub mod ring;
pub mod ring_laws;
pub mod settings;
pub mod shore_laws;
pub mod sprite;
pub mod time_app;
pub mod vector;
pub mod water;
pub mod water_hash;
pub mod water_laws;
pub mod water_paint;
pub mod wheel;
pub mod wheel_damage;
pub mod wheel_laws;
