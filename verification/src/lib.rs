pub mod text;
pub mod order;
pub mod models;
pub mod paths;
pub mod select;
pub mod resolver;
pub mod intel;
pub mod snapshot;
pub mod extractor;
pub mod laravel;
pub mod viewer;
pub mod lang;
pub mod error;
pub mod hasher;
pub mod ui;
pub mod history;
pub mod indexing;
pub mod explain;
pub mod report;
pub mod parsing;
pub mod grammar;
