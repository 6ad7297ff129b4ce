//! A listener, and the builder that collects one block of a configuration.

use crate::address::SocketAddress;
use crate::directive::Directive;
use crate::error::Error;
use crate::number::{decimal, parse_port, port_of, push_decimal};
use crate::paths::PathMap;
use crate::ssl::{loaded_view, SslBuilderView, SslCfg, SslCfgBuilder, SslView};
use crate::text::{
    chars_of, cut, cut_pair, is_word, split_once, split_once_pair, string_of, trim, trimmed,
    word,
};
use vstd::prelude::*;

verus! {

/// What a name service answered: the first address that the name stands
/// for, if it stands for any, or the message of the error that the lookup
/// met.
pub open spec fn lookup_view(answer: Result<Option<SocketAddress>, String>) -> Result<
    Option<SocketAddress>,
    Seq<char>,
> {
    match answer {
        Ok(address) => Ok(address),
        Err(e) => Err(e@),
    }
}

/// The address that a lookup gave, or why it gave none.
pub open spec fn resolved(answer: Result<Option<SocketAddress>, Seq<char>>) -> Result<
    SocketAddress,
    Seq<char>,
> {
    match answer {
        Ok(Some(address)) => Ok(address),
        Ok(None) => Err("invalid address"@),
        Err(m) => Err(m),
    }
}

/// What a line still needs from outside before it is taken.
pub enum NeedView {
    /// The line is taken.
    Nothing,
    /// The address that `target` stands for, to map `path` to it.
    Resolve { path: Seq<char>, target: Seq<char> },
    /// The contents of `file`, to take the `ssl` entry `directive` from it.
    Load { directive: Seq<char>, file: Seq<char> },
}

/// What a line still needs from outside before it is taken.
#[derive(Debug)]
pub enum Need {
    /// The line is taken.
    Nothing,
    /// The address that `target` stands for, to map `path` to it.
    Resolve { path: String, target: String },
    /// The contents of `file`, to take the `ssl` entry `directive` from it.
    Load { directive: String, file: String },
}

impl View for Need {
    type V = NeedView;

    open spec fn view(&self) -> NeedView {
        match self {
            Need::Nothing => NeedView::Nothing,
            Need::Resolve { path, target } => NeedView::Resolve { path: path@, target: target@ },
            Need::Load { directive, file } => NeedView::Load {
                directive: directive@,
                file: file@,
            },
        }
    }
}

/// What a `ListenerBuilder` has collected.
pub struct BuilderView {
    pub port: Option<u16>,
    pub server: Option<Seq<char>>,
    pub paths: Map<Seq<char>, SocketAddress>,
    pub ssl: SslBuilderView,
}

/// One configured endpoint: where it binds, where each path goes, and its
/// TLS material if it serves TLS.
pub struct ListenerView {
    pub addr: SocketAddress,
    pub paths: Map<Seq<char>, SocketAddress>,
    pub ssl: Option<SslView>,
}

impl ListenerView {
    /// A listener maps at least one path.
    pub open spec fn valid(self) -> bool {
        self.paths != Map::<Seq<char>, SocketAddress>::empty()
    }
}

impl BuilderView {
    /// Nothing collected yet.
    pub open spec fn empty() -> BuilderView {
        BuilderView { port: None, server: None, paths: Map::empty(), ssl: SslBuilderView::empty() }
    }

    /// Takes one line under `directive`, as far as that goes without asking
    /// outside: a port is recorded; a server name is recorded, unless the
    /// block has one already, for a block names its server once; a `paths`
    /// line is split into its path and its target, both single words; an
    /// `ssl` line is split into the name of its entry, which must still be
    /// open, and its file.
    pub open spec fn inserted(self, directive: Directive, line: Seq<char>) -> Result<
        (BuilderView, NeedView),
        Seq<char>,
    > {
        let line = trim(line);
        match directive {
            Directive::Port => match parse_port(line) {
                Ok(port) => Ok((BuilderView { port: Some(port as u16), ..self }, NeedView::Nothing)),
                Err(m) => Err(m),
            },
            Directive::Server => if self.server is Some {
                Err("existing directive with multiple values"@)
            } else {
                Ok((BuilderView { server: Some(line), ..self }, NeedView::Nothing))
            },
            Directive::Paths => match split_once_pair(line, '=', '>') {
                None => Err("invalid paths argument"@),
                Some((path, target)) => if is_word(trim(path)) && is_word(trim(target)) {
                    Ok((self, NeedView::Resolve { path: trim(path), target: trim(target) }))
                } else {
                    Err("invalid arguments"@)
                },
            },
            Directive::Ssl => match split_once(line, ':') {
                None => Err("invalid ssl argument(s)"@),
                Some((directive, file)) => match self.ssl.expects(trim(directive)) {
                    Ok(_) => Ok(
                        (self, NeedView::Load { directive: trim(directive), file: trim(file) }),
                    ),
                    Err(m) => Err(m),
                },
            },
        }
    }

    /// Maps `path` to the address that the lookup of its target gave. A
    /// failed lookup is refused first, then a path that is mapped already.
    pub open spec fn with_path(
        self,
        path: Seq<char>,
        answer: Result<Option<SocketAddress>, Seq<char>>,
    ) -> Result<BuilderView, Seq<char>> {
        match resolved(answer) {
            Err(m) => Err(m),
            Ok(address) => if self.paths.contains_key(path) {
                Err("existing directive with multiple values"@)
            } else {
                Ok(BuilderView { paths: self.paths.insert(path, address), ..self })
            },
        }
    }

    /// Takes the `ssl` entry `directive` from the file that was loaded for
    /// it.
    pub open spec fn with_file(self, directive: Seq<char>, loaded: Result<Seq<u8>, Seq<char>>) -> Result<
        BuilderView,
        Seq<char>,
    > {
        match self.ssl.inserted(directive, loaded) {
            Ok(ssl) => Ok(BuilderView { ssl, ..self }),
            Err(m) => Err(m),
        }
    }

    /// The name whose address the listener binds to: the server, a colon,
    /// the port. Both must have been given.
    pub open spec fn bind_name(self) -> Result<Seq<char>, Seq<char>> {
        match (self.port, self.server) {
            (None, _) => Err("missing port directive"@),
            (Some(_), None) => Err("missing server directive"@),
            (Some(port), Some(server)) => Ok(server + seq![':'] + decimal(port as nat)),
        }
    }

    /// The listener, given what the lookup of its bind name answered. A
    /// missing port, a missing server, a failed lookup and a block without
    /// paths are refused, in this order. An `ssl` section that lacks its
    /// certificate or its key counts as no `ssl` section.
    pub open spec fn built(self, answer: Result<Option<SocketAddress>, Seq<char>>) -> Result<
        ListenerView,
        Seq<char>,
    > {
        match self.bind_name() {
            Err(m) => Err(m),
            Ok(_) => match resolved(answer) {
                Err(m) => Err(m),
                Ok(addr) => if self.paths == Map::<Seq<char>, SocketAddress>::empty() {
                    Err("missing paths directive"@)
                } else {
                    Ok(
                        ListenerView {
                            addr,
                            paths: self.paths,
                            ssl: match self.ssl.built() {
                                Ok(ssl) => Some(ssl),
                                Err(_) => None,
                            },
                        },
                    )
                },
            },
        }
    }
}

/// Collects one block of a configuration.
#[derive(Debug)]
pub struct ListenerBuilder {
    port: Option<u16>,
    server: Option<String>,
    paths: PathMap,
    ssl: SslCfgBuilder,
}

impl View for ListenerBuilder {
    type V = BuilderView;

    closed spec fn view(&self) -> BuilderView {
        BuilderView {
            port: self.port,
            server: match self.server {
                Some(s) => Some(s@),
                None => None,
            },
            paths: self.paths@,
            ssl: self.ssl@,
        }
    }
}

impl ListenerBuilder {
    /// A builder that has collected nothing.
    pub fn new() -> (b: ListenerBuilder)
        ensures
            b@ == BuilderView::empty(),
    {
        ListenerBuilder { port: None, server: None, paths: PathMap::new(), ssl: SslCfgBuilder::new() }
    }

    /// Whether a port has been recorded.
    pub fn has_port(&self) -> (b: bool)
        ensures
            b == (self@.port is Some),
    {
        self.port.is_some()
    }

    /// Takes one line under `directive`, given as characters.
    pub fn insert_line(&mut self, directive: &Directive, line: &[char]) -> (r: Result<Need, Error>)
        ensures
            match old(self)@.inserted(*directive, line@) {
                Ok((b, need)) => r matches Ok(n) && n@ == need && final(self)@ == b,
                Err(m) => r matches Err(e) && e@ == m && final(self)@ == old(self)@,
            },
    {
        let line = trimmed(line);
        match directive {
            Directive::Port => match port_of(line) {
                Ok(port) => {
                    self.port = Some(port);
                    Ok(Need::Nothing)
                },
                Err(e) => Err(e),
            },
            Directive::Server => {
                if self.server.is_some() {
                    Err(Error::new("existing directive with multiple values"))
                } else {
                    self.server = Some(string_of(line));
                    Ok(Need::Nothing)
                }
            },
            Directive::Paths => match cut_pair(line, '=', '>') {
                None => Err(Error::new("invalid paths argument")),
                Some((path, target)) => {
                    let path = trimmed(path);
                    let target = trimmed(target);
                    if word(path) && word(target) {
                        Ok(Need::Resolve { path: string_of(path), target: string_of(target) })
                    } else {
                        Err(Error::new("invalid arguments"))
                    }
                },
            },
            Directive::Ssl => match cut(line, ':') {
                None => Err(Error::new("invalid ssl argument(s)")),
                Some((name, file)) => {
                    let name = trimmed(name);
                    match self.ssl.expects(name) {
                        Ok(_) => Ok(
                            Need::Load { directive: string_of(name), file: string_of(trimmed(file)) },
                        ),
                        Err(e) => Err(e),
                    }
                },
            },
        }
    }

    /// Takes one line under `directive`, as far as that goes without asking
    /// outside, and says what the line still needs: nothing for a port or a
    /// server name, the address of its target for a `paths` line, the
    /// contents of its file for an `ssl` line. A second server name is
    /// refused. A line that is refused leaves the builder as it was.
    pub fn insert(&mut self, directive: &Directive, line: &str) -> (r: Result<Need, Error>)
        ensures
            match old(self)@.inserted(*directive, line@) {
                Ok((b, need)) => r matches Ok(n) && n@ == need && final(self)@ == b,
                Err(m) => r matches Err(e) && e@ == m && final(self)@ == old(self)@,
            },
    {
        let chars = chars_of(line);
        self.insert_line(directive, chars.as_slice())
    }

    /// Maps `path` to the address that the lookup of its target gave. A
    /// failed lookup is refused first, then a path that is mapped already;
    /// either leaves the builder as it was.
    pub fn insert_path(&mut self, path: String, answer: Result<Option<SocketAddress>, String>) -> (r:
        Result<(), Error>)
        ensures
            match old(self)@.with_path(path@, lookup_view(answer)) {
                Ok(b) => r is Ok && final(self)@ == b,
                Err(m) => r matches Err(e) && e@ == m && final(self)@ == old(self)@,
            },
    {
        match answer {
            Err(message) => Err(Error::with(message)),
            Ok(None) => Err(Error::new("invalid address")),
            Ok(Some(address)) => {
                if self.paths.contains_key(path.as_str()) {
                    Err(Error::new("existing directive with multiple values"))
                } else {
                    let mut paths = PathMap::new();
                    core::mem::swap(&mut self.paths, &mut paths);
                    self.paths = paths.insert(path, address);
                    Ok(())
                }
            },
        }
    }

    /// Takes the `ssl` entry `directive` from the file that was loaded for
    /// it.
    pub fn insert_file(&mut self, directive: &str, loaded: Result<Vec<u8>, String>) -> (r: Result<
        (),
        Error,
    >)
        ensures
            match old(self)@.with_file(directive@, loaded_view(loaded)) {
                Ok(b) => r is Ok && final(self)@ == b,
                Err(m) => r matches Err(e) && e@ == m && final(self)@ == old(self)@,
            },
    {
        self.ssl.insert(directive, loaded)
    }

    /// The name whose address the listener binds to.
    pub fn bind_name(&self) -> (r: Result<String, Error>)
        ensures
            match self@.bind_name() {
                Ok(name) => r matches Ok(n) && n@ == name,
                Err(m) => r matches Err(e) && e@ == m,
            },
    {
        match self.port {
            None => Err(Error::new("missing port directive")),
            Some(port) => match &self.server {
                None => Err(Error::new("missing server directive")),
                Some(server) => {
                    let mut name = chars_of(server.as_str());
                    name.push(':');
                    push_decimal(&mut name, port);
                    assert(name@ =~= server@ + seq![':'] + decimal(port as nat));
                    Ok(string_of(name.as_slice()))
                },
            },
        }
    }

    /// The listener, given what the lookup of its bind name answered. A
    /// missing port, a missing server, a failed lookup and a block without
    /// paths are refused, in this order. An `ssl` section that lacks its
    /// certificate or its key counts as no `ssl` section.
    pub fn build(self, answer: Result<Option<SocketAddress>, String>) -> (r: Result<
        Listener,
        Error,
    >)
        ensures
            match self@.built(lookup_view(answer)) {
                Ok(listener) => r matches Ok(l) && l@ == listener && listener.valid(),
                Err(m) => r matches Err(e) && e@ == m,
            },
    {
        if self.port.is_none() {
            return Err(Error::new("missing port directive"));
        }
        if self.server.is_none() {
            return Err(Error::new("missing server directive"));
        }
        match answer {
            Err(message) => Err(Error::with(message)),
            Ok(None) => Err(Error::new("invalid address")),
            Ok(Some(addr)) => {
                if self.paths.is_empty() {
                    Err(Error::new("missing paths directive"))
                } else {
                    let ssl = match self.ssl.build() {
                        Ok(ssl) => Some(ssl),
                        Err(_) => None,
                    };
                    Ok(Listener { addr, paths: self.paths, ssl })
                }
            },
        }
    }
}

/// One configured endpoint.
#[derive(Debug)]
pub struct Listener {
    addr: SocketAddress,
    paths: PathMap,
    ssl: Option<SslCfg>,
}

impl View for Listener {
    type V = ListenerView;

    closed spec fn view(&self) -> ListenerView {
        ListenerView {
            addr: self.addr,
            paths: self.paths@,
            ssl: match self.ssl {
                Some(ssl) => Some(ssl@),
                None => None,
            },
        }
    }
}

impl Listener {
    #[verifier::type_invariant]
    spec fn well_formed(self) -> bool {
        self.paths@ != Map::<Seq<char>, SocketAddress>::empty()
    }

    /// The address that the listener binds to.
    pub fn addr(&self) -> (a: SocketAddress)
        ensures
            a == self@.addr,
            self@.valid(),
    {
        proof {
            use_type_invariant(self);
        }
        self.addr
    }

    /// The path mappings: at least one.
    pub fn paths(&self) -> (r: PathMap)
        ensures
            r@ == self@.paths,
            self@.valid(),
    {
        proof {
            use_type_invariant(self);
        }
        self.paths.clone()
    }

    /// The TLS material, if the listener serves TLS.
    pub fn ssl(&self) -> (r: Option<&SslCfg>)
        ensures
            match r {
                Some(ssl) => self@.ssl == Some(ssl@),
                None => self@.ssl is None,
            },
    {
        self.ssl.as_ref()
    }
}

} // verus!
