//! An enchanted diary: ink capture, the page it is drawn on, the hand that
//! writes the reply, and the conversation with the spirit behind it.

pub mod base64;
pub mod canvas;
pub mod cover;
pub mod cursor;
pub mod desktop;
pub mod dissolve;
pub mod document;
pub mod drawing;
pub mod env;
pub mod events;
pub mod fb;
pub mod font;
pub mod frame;
pub mod http;
pub mod ink;
pub mod json;
pub mod layout;
pub mod lettering;
pub mod lines;
pub mod number;
pub mod oracle;
pub mod persona;
pub mod pi;
pub mod picture;
pub mod polygon;
pub mod qtfb;
pub mod quill;
pub mod raster;
pub mod reply;
pub mod script;
pub mod sentence;
pub mod shapes;
pub mod skeleton;
pub mod spacing;
pub mod speech;
pub mod sse;
pub mod stream;
pub mod strokes;
pub mod surface;
pub mod text;
pub mod thin;
pub mod trace;
pub mod wire;
pub mod wrap;
pub mod writing;
