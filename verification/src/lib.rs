pub mod text;
pub mod paint;
pub mod markup;
pub mod links;
pub mod article;
pub mod format;
pub mod api;
pub mod pager;
