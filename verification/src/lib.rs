pub mod app;
pub mod baker;
pub mod board;
pub mod clock;
pub mod clock_laws;
pub mod cloud;
pub mod codec;
pub mod display;
pub mod drivers;
pub mod font;
pub mod font_laws;
pub mod gradient;
pub mod imath;
pub mod input;
pub mod light_rays;
pub mod morph;
pub mod motion;
pub mod motion_laws;
pub mod pixel;
pub mod prebake;
pub mod raidal;
pub mod raster;
pub mod scenes;
pub mod sheet;
pub mod sheet_laws;
pub mod shader_laws;
pub mod shell;
pub mod shell_laws;
pub mod time;
pub mod trig;
pub mod upscale;
