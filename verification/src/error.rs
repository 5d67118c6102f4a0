//! The typed failures of resolver lookups.

use vstd::prelude::*;
use crate::ident::Ident;
use crate::into_ident::IntoIdent;
use crate::into_key::IntoKey;
use crate::key::Key;

verus! {

/// Why a resolver operation failed, with the offending names embedded.
#[derive(Debug, PartialEq)]
pub enum Error {
    /// The processor is not declared in the dataflow.
    ProcessorNotFound { processor: Ident },
    /// The exchange is not declared in the dataflow.
    ExchangeNotFound { exchange: Key },
    /// No exchange feeds this processor's input.
    NoInputAvailable { processor: Ident },
    /// No exchange takes this processor's output.
    NoOutputAvailable { processor: Ident },
    /// The exchange is not connected to the processor on that side.
    ConnectionError { processor: Ident, exchange: Key },
    /// Several exchanges feed the processor; one must be selected.
    InputNotSpecified { processor: Ident },
    /// Several exchanges take the processor's output; one must be
    /// selected.
    OutputNotSpecified { processor: Ident },
}

impl Error {
    pub fn processor_not_found<N: IntoIdent>(processor: N) -> (r: Self)
        requires
            processor.ident_ready(),
        ensures
            r matches Error::ProcessorNotFound { processor: p } && p@ == processor.ident_view(),
    {
        Error::ProcessorNotFound { processor: IntoIdent::into(processor) }
    }

    pub fn exchange_not_found<E: IntoKey>(exchange: E) -> (r: Self)
        requires
            exchange.key_ready(),
        ensures
            r matches Error::ExchangeNotFound { exchange: e } && e@ == exchange.key_view(),
    {
        Error::ExchangeNotFound { exchange: IntoKey::into(exchange) }
    }

    pub fn no_input_available<N: IntoIdent>(processor: N) -> (r: Self)
        requires
            processor.ident_ready(),
        ensures
            r matches Error::NoInputAvailable { processor: p } && p@ == processor.ident_view(),
    {
        Error::NoInputAvailable { processor: IntoIdent::into(processor) }
    }

    pub fn no_output_available<N: IntoIdent>(processor: N) -> (r: Self)
        requires
            processor.ident_ready(),
        ensures
            r matches Error::NoOutputAvailable { processor: p } && p@ == processor.ident_view(),
    {
        Error::NoOutputAvailable { processor: IntoIdent::into(processor) }
    }

    pub fn input_not_specified<N: IntoIdent>(processor: N) -> (r: Self)
        requires
            processor.ident_ready(),
        ensures
            r matches Error::InputNotSpecified { processor: p } && p@ == processor.ident_view(),
    {
        Error::InputNotSpecified { processor: IntoIdent::into(processor) }
    }

    pub fn output_not_specified<N: IntoIdent>(processor: N) -> (r: Self)
        requires
            processor.ident_ready(),
        ensures
            r matches Error::OutputNotSpecified { processor: p } && p@ == processor.ident_view(),
    {
        Error::OutputNotSpecified { processor: IntoIdent::into(processor) }
    }

    pub fn connection_error<N: IntoIdent, E: IntoKey>(processor: N, exchange: E) -> (r: Self)
        requires
            processor.ident_ready(),
            exchange.key_ready(),
        ensures
            r matches Error::ConnectionError { processor: p, exchange: e } && p@
                == processor.ident_view() && e@ == exchange.key_view(),
    {
        Error::ConnectionError {
            processor: IntoIdent::into(processor),
            exchange: IntoKey::into(exchange),
        }
    }
}

} // verus!
