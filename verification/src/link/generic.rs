//! The closed set of exchange transport configurations.

use vstd::prelude::*;
use crate::link::{amqp, file, import, null, unix, zenoh};
use crate::link::import::import_config_view;

verus! {

/// The content of a transport configuration, one variant per backend.
#[verifier::ext_equal]
pub ghost enum ConfigView {
    File(file::FileConfigView),
    Zenoh(zenoh::ZenohConfigView),
    Amqp(amqp::AmqpConfigView),
    Unix(unix::UnixConfigView),
    Null(null::NullConfigView),
    Import(import::ImportConfigView),
}

/// A transport configuration: the tagged variant over the backend kinds.
/// The resolver hands one out per resolved exchange; the transport layer
/// builds the actual sender or receiver from it.
#[derive(Debug, PartialEq, Eq, Hash)]
pub enum Config {
    File(file::Config),
    Zenoh(zenoh::Config),
    Amqp(amqp::Config),
    Unix(unix::Config),
    Null(null::Config),
    Import(import::Config),
}

/// The content of a transport configuration.
pub open spec fn config_view(c: Config) -> ConfigView
    decreases c,
{
    match c {
        Config::File(x) => ConfigView::File(x@),
        Config::Zenoh(x) => ConfigView::Zenoh(x@),
        Config::Amqp(x) => ConfigView::Amqp(x@),
        Config::Unix(x) => ConfigView::Unix(x@),
        Config::Null(x) => ConfigView::Null(x@),
        Config::Import(x) => ConfigView::Import(import_config_view(x)),
    }
}

impl View for Config {
    type V = ConfigView;

    open spec fn view(&self) -> ConfigView {
        config_view(*self)
    }
}

impl Clone for Config {
    fn clone(&self) -> (r: Self)
        ensures
            r@ == self@,
        decreases *self,
    {
        match self {
            Config::File(x) => Config::File(x.clone()),
            Config::Zenoh(x) => Config::Zenoh(x.clone()),
            Config::Amqp(x) => Config::Amqp(x.clone()),
            Config::Unix(x) => Config::Unix(x.clone()),
            Config::Null(x) => Config::Null(x.clone()),
            Config::Import(x) => Config::Import(x.clone()),
        }
    }
}

} // verus!
