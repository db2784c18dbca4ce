//! The core of a crawler that walks the pages of one site breadth first and
//! reports, page by page, the title and the matches of a pattern.
//!
//! The library decides and computes; it fetches nothing. A caller fetches
//! the page that `Crawler::execute` names and hands what came to the next
//! call, until no page is named.
//!
//! - `traversal`: the breadth-first walk, over nodes of any kind.
//! - `graph`, `reach`, `levels`: the walk over a graph that is given whole,
//!   and what is proved of it: it visits what can be reached, each node once,
//!   the nearer ones first, and it ends.
//! - `document`: a parsed page, its links, its title and the texts it carries.
//! - `links`: which links of a page are followed, and under which URL.
//! - `matcher`: the matches of the pattern in a page.
//! - `crawler`: the crawler, what it finds in a page, and the state of a crawl.
//! - `clock`: the time that a page takes.
//! - `report`: what a service answers for the outcome of a crawl.

use vstd::prelude::*;

pub mod cli;
pub mod clock;
pub mod crawler;
pub mod document;
pub mod graph;
pub mod levels;
pub mod links;
pub mod matcher;
pub mod reach;
pub mod report;
pub mod text;
pub mod traversal;
pub mod views;

pub use cli::Args;
pub use crawler::{Crawl, Crawler, CrawlerError, CrawlerResult, Fetched, PageReport, Phase};
pub use document::{Document, Node, NodeData};
pub use graph::Graph;
pub use report::{exclude, respond, CrawlReport, RequestResult, EXCLUDED, TARGET_PATTERN};
pub use traversal::{Traversal, Vertex};
