//! Configuration that defers to another configuration file.

use vstd::prelude::*;
use crate::link::generic;
use crate::link::generic::{config_view, ConfigView};

verus! {

/// The text of an import configuration: the path of the referenced file
/// and the configuration loaded from it.
#[verifier::ext_equal]
pub ghost struct ImportConfigView {
    pub path: Seq<char>,
    pub config: Box<ConfigView>,
}

/// An exchange whose configuration lives in another file: `path` is the
/// file's location and `config` the configuration read from it, loaded
/// eagerly when the including file was read.
#[derive(Debug, PartialEq, Eq, Hash)]
pub struct Config {
    pub path: String,
    pub config: Box<generic::Config>,
}

/// The content of an import configuration.
pub open spec fn import_config_view(c: Config) -> ImportConfigView
    decreases c,
{
    ImportConfigView { path: c.path@, config: Box::new(config_view(*c.config)) }
}

impl View for Config {
    type V = ImportConfigView;

    open spec fn view(&self) -> ImportConfigView {
        import_config_view(*self)
    }
}

impl Clone for Config {
    fn clone(&self) -> (r: Self)
        ensures
            r@ == self@,
        decreases *self,
    {
        Config { path: self.path.clone(), config: Box::new((*self.config).clone()) }
    }
}

} // verus!
