//! The rows of the catalogue and the records that queries hand out.

use vstd::prelude::*;
use crate::model::{AppRec, ExtRec, LinkRec};

verus! {

/// A row of the application table.
pub struct AppRow {
    pub id: i64,
    pub name: String,
    pub path: String,
}

impl View for AppRow {
    type V = AppRec;

    open spec fn view(&self) -> AppRec {
        AppRec { id: self.id, name: self.name@, path: self.path@ }
    }
}

impl Clone for AppRow {
    fn clone(&self) -> (r: Self)
        ensures
            r@ == self@,
    {
        AppRow { id: self.id, name: self.name.clone(), path: self.path.clone() }
    }
}

/// A row of the extension table.
pub struct ExtensionRow {
    pub ext: String,
    pub description: String,
    pub default_app_id: Option<i64>,
}

impl View for ExtensionRow {
    type V = ExtRec;

    open spec fn view(&self) -> ExtRec {
        ExtRec { ext: self.ext@, description: self.description@, default_app_id: self.default_app_id }
    }
}

impl Clone for ExtensionRow {
    fn clone(&self) -> (r: Self)
        ensures
            r@ == self@,
    {
        ExtensionRow {
            ext: self.ext.clone(),
            description: self.description.clone(),
            default_app_id: self.default_app_id,
        }
    }
}

/// A row of the table that says which application can open which
/// extension.
pub struct LinkRow {
    pub ext: String,
    pub app_id: i64,
}

impl View for LinkRow {
    type V = LinkRec;

    open spec fn view(&self) -> LinkRec {
        LinkRec { ext: self.ext@, app_id: self.app_id }
    }
}

impl Clone for LinkRow {
    fn clone(&self) -> (r: Self)
        ensures
            r@ == self@,
    {
        LinkRow { ext: self.ext.clone(), app_id: self.app_id }
    }
}

/// An application as the queries list it, with a count whose meaning each
/// query states.
#[derive(Debug)]
pub struct App {
    pub id: i64,
    pub name: String,
    pub path: String,
    pub ext_count: i64,
}

impl Clone for App {
    fn clone(&self) -> (r: Self)
        ensures
            r == *self,
    {
        App { id: self.id, name: self.name.clone(), path: self.path.clone(), ext_count: self.ext_count }
    }
}

/// An extension as the queries list it, with the name of its default
/// application when it has one.
#[derive(Debug)]
pub struct Extension {
    pub ext: String,
    pub description: String,
    pub default_app_id: Option<i64>,
    pub default_app_name: Option<String>,
}

impl Clone for Extension {
    fn clone(&self) -> (r: Self)
        ensures
            r == *self,
    {
        let default_app_name = match &self.default_app_name {
            Some(n) => Some(n.clone()),
            None => None,
        };
        Extension {
            ext: self.ext.clone(),
            description: self.description.clone(),
            default_app_id: self.default_app_id,
            default_app_name,
        }
    }
}

} // verus!
