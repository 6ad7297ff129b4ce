//! The parser of a configuration, as a machine that stops wherever it needs
//! something from outside: the address that a name stands for, or the
//! contents of a file. Whoever runs it answers, and it goes on from there.

use crate::address::SocketAddress;
use crate::config::line_views;
use crate::directive::Directive;
use crate::error::Error;
use crate::listener::{
    lookup_view, BuilderView, Listener, ListenerBuilder, ListenerView, Need, NeedView,
};
use crate::ssl::loaded_view;
use crate::text::{chars_of, cut, split_once, trim, trimmed};
use vstd::prelude::*;

verus! {

/// Where the parser stands: the measured lines, how many of them are read,
/// the block that is being collected, the section that nested lines belong
/// to, and the listeners that are complete.
pub struct ParserView {
    pub lines: Seq<(nat, Seq<char>)>,
    pub pos: nat,
    pub builder: BuilderView,
    pub current: Directive,
    pub listeners: Seq<ListenerView>,
}

/// What the parser has come to.
pub enum StepView {
    /// It needs the address that `name` stands for: for the backend of
    /// `path`, or, where there is no path, for the listener itself.
    Resolve { state: ParserView, name: Seq<char>, path: Option<Seq<char>> },
    /// It needs the contents of `file`, for the `ssl` entry `directive`.
    Load { state: ParserView, directive: Seq<char>, file: Seq<char> },
    /// The text is read: these are its listeners, in the order of their
    /// blocks.
    Done(Seq<ListenerView>),
    /// The text is refused.
    Failed(Seq<char>),
}

impl ParserView {
    /// The parser before the first line.
    pub open spec fn start(lines: Seq<(nat, Seq<char>)>) -> ParserView {
        ParserView {
            lines,
            pos: 0,
            builder: BuilderView::empty(),
            current: Directive::Port,
            listeners: Seq::empty(),
        }
    }

    /// Closes the block that is being collected: it needs the address to
    /// bind to, if it has a port and a server to name it.
    pub open spec fn finish(self) -> StepView {
        match self.builder.bind_name() {
            Err(m) => StepView::Failed(m),
            Ok(name) => StepView::Resolve { state: self, name, path: None },
        }
    }

    /// Reads on until something is needed from outside, or the text ends or
    /// is refused.
    ///
    /// A line at depth 0 opens a block with its port; the block before it,
    /// if a port was given for one, is closed first. A line at depth 1
    /// names a section, and gives the value of a singular one. A line at
    /// depth 2 belongs to the section named last. No line lies deeper.
    pub open spec fn advance(self) -> StepView
        decreases self.lines.len() - self.pos,
    {
        if self.pos >= self.lines.len() {
            self.finish()
        } else {
            let (depth, line) = self.lines[self.pos as int];
            let pos = self.pos + 1;
            if depth == 0 {
                if self.builder.port is Some {
                    self.finish()
                } else {
                    match self.builder.inserted(Directive::Port, line) {
                        Err(m) => StepView::Failed(m),
                        Ok((builder, _)) => ParserView { builder, pos, ..self }.advance(),
                    }
                }
            } else if depth == 1 {
                match split_once(line, ':') {
                    None => StepView::Failed("invalid formatting"@),
                    Some((name, value)) => match Directive::resolved(trim(name)) {
                        Err(m) => StepView::Failed(m),
                        Ok(current) => if current.singular() {
                            match self.builder.inserted(current, value) {
                                Err(m) => StepView::Failed(m),
                                Ok((builder, _)) => ParserView {
                                    builder,
                                    current,
                                    pos,
                                    ..self
                                }.advance(),
                            }
                        } else {
                            ParserView { current, pos, ..self }.advance()
                        },
                    },
                }
            } else if depth == 2 {
                match self.builder.inserted(self.current, line) {
                    Err(m) => StepView::Failed(m),
                    Ok((builder, need)) => {
                        let state = ParserView { builder, pos, ..self };
                        match need {
                            NeedView::Nothing => state.advance(),
                            NeedView::Resolve { path, target } => StepView::Resolve {
                                state,
                                name: target,
                                path: Some(path),
                            },
                            NeedView::Load { directive, file } => StepView::Load {
                                state,
                                directive,
                                file,
                            },
                        }
                    },
                }
            } else {
                StepView::Failed("invalid depth"@)
            }
        }
    }

    /// Goes on with the answer to a lookup. For a path, the path is mapped
    /// to the address. For the listener itself, the block is built and
    /// joins the listeners; at the end of the text that is all, and else a
    /// new block begins.
    pub open spec fn resolved(
        self,
        path: Option<Seq<char>>,
        answer: Result<Option<SocketAddress>, Seq<char>>,
    ) -> StepView {
        match path {
            Some(path) => match self.builder.with_path(path, answer) {
                Err(m) => StepView::Failed(m),
                Ok(builder) => ParserView { builder, ..self }.advance(),
            },
            None => match self.builder.built(answer) {
                Err(m) => StepView::Failed(m),
                Ok(listener) => {
                    let listeners = self.listeners.push(listener);
                    if self.pos >= self.lines.len() {
                        StepView::Done(listeners)
                    } else {
                        ParserView { builder: BuilderView::empty(), listeners, ..self }.advance()
                    }
                },
            },
        }
    }

    /// Goes on with the file that was loaded for an `ssl` entry.
    pub open spec fn loaded(self, directive: Seq<char>, loaded: Result<Seq<u8>, Seq<char>>) -> StepView {
        match self.builder.with_file(directive, loaded) {
            Err(m) => StepView::Failed(m),
            Ok(builder) => ParserView { builder, ..self }.advance(),
        }
    }
}

/// What comes from outside in answer to a step.
pub enum Answer {
    /// What a lookup gave: the first address that the name stands for, if
    /// it stands for any, or the message of the error that the lookup met.
    Address(Result<Option<SocketAddress>, Seq<char>>),
    /// What reading a file gave: its bytes, or the message of the error
    /// that reading it met.
    Contents(Result<Seq<u8>, Seq<char>>),
}

impl StepView {
    /// The step after `answer`. A step that needs nothing, and an answer
    /// that is not of the kind that the step needs, leave the step as it
    /// is.
    pub open spec fn answered(self, answer: Answer) -> StepView {
        match self {
            StepView::Resolve { state, name, path } => match answer {
                Answer::Address(address) => state.resolved(path, address),
                Answer::Contents(_) => self,
            },
            StepView::Load { state, directive, file } => match answer {
                Answer::Contents(contents) => state.loaded(directive, contents),
                Answer::Address(_) => self,
            },
            StepView::Done(_) => self,
            StepView::Failed(_) => self,
        }
    }

    /// The step after each of `answers` in turn.
    pub open spec fn run(self, answers: Seq<Answer>) -> StepView
        decreases answers.len(),
    {
        if answers.len() == 0 {
            self
        } else {
            self.answered(answers[0]).run(answers.drop_first())
        }
    }

    /// The complete listeners that the step holds, unless the text is
    /// refused.
    pub open spec fn listeners(self) -> Option<Seq<ListenerView>> {
        match self {
            StepView::Resolve { state, .. } => Some(state.listeners),
            StepView::Load { state, .. } => Some(state.listeners),
            StepView::Done(listeners) => Some(listeners),
            StepView::Failed(_) => None,
        }
    }

    /// What the open block has collected, while the parser waits.
    pub open spec fn collected(self) -> Option<BuilderView> {
        match self {
            StepView::Resolve { state, .. } => Some(state.builder),
            StepView::Load { state, .. } => Some(state.builder),
            StepView::Done(_) => None,
            StepView::Failed(_) => None,
        }
    }

    /// The block that the step is collecting, while it waits inside one.
    pub open spec fn block(self) -> Option<BuilderView> {
        match self {
            StepView::Resolve { state, path, .. } => if path is Some {
                Some(state.builder)
            } else {
                None
            },
            StepView::Load { state, .. } => Some(state.builder),
            StepView::Done(_) => None,
            StepView::Failed(_) => None,
        }
    }
}

/// Listeners as the specification sees them.
pub open spec fn listener_views(listeners: Seq<Listener>) -> Seq<ListenerView> {
    Seq::new(listeners.len(), |i: int| listeners[i]@)
}

/// The state of the parser between two steps.
#[derive(Debug)]
pub struct Parser {
    lines: Vec<(usize, String)>,
    pos: usize,
    builder: ListenerBuilder,
    current: Directive,
    listeners: Vec<Listener>,
}

impl View for Parser {
    type V = ParserView;

    closed spec fn view(&self) -> ParserView {
        ParserView {
            lines: line_views(self.lines@),
            pos: self.pos as nat,
            builder: self.builder@,
            current: self.current,
            listeners: listener_views(self.listeners@),
        }
    }
}

/// A parser that waits for the address of a name.
#[derive(Debug)]
pub struct Resolving {
    parser: Parser,
    name: String,
    path: Option<String>,
}

/// A waiting parser as the specification sees it.
pub struct ResolvingView {
    pub state: ParserView,
    pub name: Seq<char>,
    pub path: Option<Seq<char>>,
}

impl View for Resolving {
    type V = ResolvingView;

    closed spec fn view(&self) -> ResolvingView {
        ResolvingView {
            state: self.parser@,
            name: self.name@,
            path: match self.path {
                Some(path) => Some(path@),
                None => None,
            },
        }
    }
}

/// A parser that waits for the contents of a file.
#[derive(Debug)]
pub struct Loading {
    parser: Parser,
    directive: String,
    file: String,
}

/// A waiting parser as the specification sees it.
pub struct LoadingView {
    pub state: ParserView,
    pub directive: Seq<char>,
    pub file: Seq<char>,
}

impl View for Loading {
    type V = LoadingView;

    closed spec fn view(&self) -> LoadingView {
        LoadingView { state: self.parser@, directive: self.directive@, file: self.file@ }
    }
}

/// What the parser has come to.
#[derive(Debug)]
pub enum Step {
    /// It needs the address that a name stands for.
    Resolve(Resolving),
    /// It needs the contents of a file.
    Load(Loading),
    /// The text is read: these are its listeners, in the order of their
    /// blocks.
    Done(Vec<Listener>),
    /// The text is refused.
    Failed(Error),
}

impl View for Step {
    type V = StepView;

    open spec fn view(&self) -> StepView {
        match self {
            Step::Resolve(r) => StepView::Resolve {
                state: r@.state,
                name: r@.name,
                path: r@.path,
            },
            Step::Load(l) => StepView::Load {
                state: l@.state,
                directive: l@.directive,
                file: l@.file,
            },
            Step::Done(listeners) => StepView::Done(listener_views(listeners@)),
            Step::Failed(e) => StepView::Failed(e@),
        }
    }
}

impl Parser {
    /// The parser before the first of `lines`.
    pub fn new(lines: Vec<(usize, String)>) -> (parser: Parser)
        ensures
            parser@ == ParserView::start(line_views(lines@)),
    {
        let parser = Parser {
            lines,
            pos: 0,
            builder: ListenerBuilder::new(),
            current: Directive::Port,
            listeners: Vec::new(),
        };
        assert(parser@.listeners =~= Seq::empty());
        parser
    }

    /// Closes the block that is being collected.
    fn finish(self) -> (step: Step)
        ensures
            step@ == self@.finish(),
    {
        match self.builder.bind_name() {
            Err(e) => Step::Failed(e),
            Ok(name) => Step::Resolve(Resolving { parser: self, name, path: None }),
        }
    }

    /// Reads on until something is needed from outside, or the text ends or
    /// is refused.
    pub fn advance(self) -> (step: Step)
        ensures
            step@ == self@.advance(),
    {
        let ghost goal = self@.advance();
        let mut parser = self;
        loop
            invariant
                goal == self@.advance(),
                parser@.advance() == goal,
            decreases parser.lines.len() - parser.pos,
        {
            if parser.pos >= parser.lines.len() {
                return parser.finish();
            }
            let depth: usize = parser.lines[parser.pos].0;
            let line = chars_of(parser.lines[parser.pos].1.as_str());
            assert(parser@.lines[parser.pos as int] == (depth as nat, line@));
            if depth == 0 {
                if parser.builder.has_port() {
                    return parser.finish();
                }
                match parser.builder.insert_line(&Directive::Port, line.as_slice()) {
                    Err(e) => {
                        return Step::Failed(e);
                    },
                    Ok(_) => {
                        parser.pos = parser.pos + 1;
                    },
                }
            } else if depth == 1 {
                match cut(line.as_slice(), ':') {
                    None => {
                        return Step::Failed(Error::new("invalid formatting"));
                    },
                    Some((name, value)) => match Directive::lookup(trimmed(name)) {
                        Err(e) => {
                            return Step::Failed(e);
                        },
                        Ok(directive) => {
                            if directive.is_singular() {
                                match parser.builder.insert_line(&directive, value) {
                                    Err(e) => {
                                        return Step::Failed(e);
                                    },
                                    Ok(_) => {},
                                }
                            }
                            parser.current = directive;
                            parser.pos = parser.pos + 1;
                        },
                    },
                }
            } else if depth == 2 {
                let current = parser.current;
                match parser.builder.insert_line(&current, line.as_slice()) {
                    Err(e) => {
                        return Step::Failed(e);
                    },
                    Ok(need) => {
                        parser.pos = parser.pos + 1;
                        match need {
                            Need::Nothing => {},
                            Need::Resolve { path, target } => {
                                return Step::Resolve(
                                    Resolving { parser, name: target, path: Some(path) },
                                );
                            },
                            Need::Load { directive, file } => {
                                return Step::Load(Loading { parser, directive, file });
                            },
                        }
                    },
                }
            } else {
                return Step::Failed(Error::new("invalid depth"));
            }
        }
    }
}

impl Resolving {
    /// The name whose address is needed.
    pub fn name(&self) -> (name: &str)
        ensures
            name@ == self@.name,
    {
        self.name.as_str()
    }

    /// Goes on with what the lookup of the name answered: the first address
    /// that the name stands for, if it stands for any, or the message of
    /// the error that the lookup met.
    pub fn answer(self, answer: Result<Option<SocketAddress>, String>) -> (step: Step)
        ensures
            step@ == self@.state.resolved(self@.path, lookup_view(answer)),
    {
        let Resolving { parser, name: _, path } = self;
        let Parser { lines, pos, builder, current, listeners } = parser;
        match path {
            Some(path) => {
                let mut builder = builder;
                match builder.insert_path(path, answer) {
                    Err(e) => Step::Failed(e),
                    Ok(()) => Parser { lines, pos, builder, current, listeners }.advance(),
                }
            },
            None => match builder.build(answer) {
                Err(e) => Step::Failed(e),
                Ok(listener) => {
                    let mut listeners = listeners;
                    let ghost before = listener_views(listeners@);
                    listeners.push(listener);
                    assert(listener_views(listeners@) =~= before.push(listener@));
                    if pos >= lines.len() {
                        Step::Done(listeners)
                    } else {
                        Parser {
                            lines,
                            pos,
                            builder: ListenerBuilder::new(),
                            current,
                            listeners,
                        }.advance()
                    }
                },
            },
        }
    }
}

impl Loading {
    /// The file whose contents are needed.
    pub fn file(&self) -> (file: &str)
        ensures
            file@ == self@.file,
    {
        self.file.as_str()
    }

    /// Goes on with what reading the file gave: its bytes, or the message
    /// of the error that reading it met.
    pub fn answer(self, loaded: Result<Vec<u8>, String>) -> (step: Step)
        ensures
            step@ == self@.state.loaded(self@.directive, loaded_view(loaded)),
    {
        let Loading { parser, directive, file: _ } = self;
        let Parser { lines, pos, builder, current, listeners } = parser;
        let mut builder = builder;
        match builder.insert_file(directive.as_str(), loaded) {
            Err(e) => Step::Failed(e),
            Ok(()) => Parser { lines, pos, builder, current, listeners }.advance(),
        }
    }
}

} // verus!
