pub mod gesture_laws;
pub mod gestures;
