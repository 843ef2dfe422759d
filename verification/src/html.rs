//! View descriptors: the declarative shape of a server-rendered page.
//!
//! Rendering itself is an external capability; the library only carries
//! these descriptions from the route table to the renderer.

use vstd::prelude::*;

use crate::route::Method;

verus! {

/// A page: a sequence of entities rendered in order.
pub struct View {
    pub entities: Vec<Entity>,
}

/// One renderable block of a view.
pub enum Entity {
    Links(Vec<Link>),
    Form(Form),
    Markdown,
    Object,
    Table(HtmlTable),
}

/// A hyperlink, with an optional label shown instead of the target.
pub struct Link {
    pub value: String,
    pub label: Option<String>,
}

/// A form posting to a target with one HTTP method.
pub struct Form {
    pub target: String,
    pub method: Method,
    pub title: Option<String>,
    pub fields: Vec<Field>,
}

/// One input field of a form.
pub struct Field {
    pub id: String,
    pub field_type: String,
    pub label: Option<String>,
    pub value: Option<String>,
}

/// A table whose columns are detected from the payload at render time.
pub struct HtmlTable {
    pub columns: Vec<Column>,
}

/// One column of a table, with an optional accessor into each row.
pub struct Column {
    pub name: String,
    pub accessor: Option<String>,
}

} // verus!
