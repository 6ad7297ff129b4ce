//! The closed set of configuration sections.

use crate::error::Error;
use crate::text::{chars_of, same};
use vstd::prelude::*;

verus! {

/// A section of a listener block.
#[derive(Clone, Copy, Debug, PartialEq, Eq, Structural)]
pub enum Directive {
    Port,
    Server,
    Paths,
    Ssl,
}

impl Directive {
    /// The directive that a name stands for, if it stands for one.
    pub open spec fn named(name: Seq<char>) -> Option<Directive> {
        if name == "port"@ {
            Some(Directive::Port)
        } else if name == "server"@ {
            Some(Directive::Server)
        } else if name == "paths"@ {
            Some(Directive::Paths)
        } else if name == "ssl"@ {
            Some(Directive::Ssl)
        } else {
            None
        }
    }

    /// What `get` answers for a name.
    pub open spec fn resolved(name: Seq<char>) -> Result<Directive, Seq<char>> {
        match Self::named(name) {
            Some(d) => Ok(d),
            None => Err("invalid directive"@),
        }
    }

    /// A singular directive takes its one value on its own line.
    pub open spec fn singular(self) -> bool {
        self == Directive::Server
    }

    /// Resolves a directive name given as characters.
    pub fn lookup(name: &[char]) -> (r: Result<Directive, Error>)
        ensures
            match Self::resolved(name@) {
                Ok(d) => r == Ok::<Directive, Error>(d),
                Err(m) => r matches Err(e) && e@ == m,
            },
    {
        if same(name, chars_of("port").as_slice()) {
            Ok(Directive::Port)
        } else if same(name, chars_of("server").as_slice()) {
            Ok(Directive::Server)
        } else if same(name, chars_of("paths").as_slice()) {
            Ok(Directive::Paths)
        } else if same(name, chars_of("ssl").as_slice()) {
            Ok(Directive::Ssl)
        } else {
            Err(Error::new("invalid directive"))
        }
    }

    /// Resolves a directive name: `port`, `server`, `paths` or `ssl`, and
    /// nothing else.
    pub fn get(s: &str) -> (r: Result<Directive, Error>)
        ensures
            match Self::resolved(s@) {
                Ok(d) => r == Ok::<Directive, Error>(d),
                Err(m) => r matches Err(e) && e@ == m,
            },
    {
        Self::lookup(chars_of(s).as_slice())
    }

    /// Whether the directive takes its one value on its own line.
    pub fn is_singular(&self) -> (b: bool)
        ensures
            b == self.singular(),
    {
        match self {
            Directive::Server => true,
            _ => false,
        }
    }
}

} // verus!
