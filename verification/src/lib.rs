//! A keyboard launcher's core: pinyin-aware application search, a
//! recency-ordered icon cache, icon pixel assembly, shortcut scanning rules,
//! window placement decisions and the colour theme.

pub mod text;
pub mod launcher;
pub mod search;
pub mod lru;
pub mod icon;
pub mod window;
pub mod ui;
