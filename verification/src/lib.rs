pub mod card;
pub mod designer;
pub mod export;
pub mod history;
pub mod lang;
pub mod logo;
pub mod qr;
pub mod raster;
pub mod render;
pub mod scale;
pub mod style;
pub mod template;
pub mod text;
pub mod theme;
