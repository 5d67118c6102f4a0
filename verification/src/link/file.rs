//! Configuration of the file drop-folder backend.

use vstd::prelude::*;

verus! {

/// The text of a file backend configuration.
#[verifier::ext_equal]
pub ghost struct FileConfigView {
    pub dir: Seq<char>,
    pub auto_clean: bool,
}

/// A file-directory exchange: each message is dropped as one file in
/// `dir`; `auto_clean` asks the sender to clear the directory first.
#[derive(Debug, PartialEq, Eq, Hash)]
pub struct Config {
    pub dir: String,
    pub auto_clean: bool,
}

impl View for Config {
    type V = FileConfigView;

    open spec fn view(&self) -> FileConfigView {
        FileConfigView { dir: self.dir@, auto_clean: self.auto_clean }
    }
}

impl Clone for Config {
    fn clone(&self) -> (r: Self)
        ensures
            r@ == self@,
    {
        Config { dir: self.dir.clone(), auto_clean: self.auto_clean }
    }
}

} // verus!
