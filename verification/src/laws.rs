//! What holds of every configuration text and of every run of its parser,
//! whatever the answers from outside.

use crate::address::SocketAddress;
use crate::config::parsed;
use crate::directive::Directive;
use crate::layout::{
    consistent, indent, indents, least_nonzero, lemma_least_nonzero, measured, measured_lines,
    normalize, with_depths,
};
use crate::listener::{BuilderView, ListenerView, NeedView};
use crate::parser::{Answer, ParserView, StepView};
use crate::ssl::{SslBuilderView, SslDirective};
use crate::layout::{clean, content_lines};
use crate::text::{
    byte_len, index_of, index_of_pair, is_whitespace, is_word, leading_whitespace,
    lemma_trim_start_clean, split_once, split_once_pair, trailing_whitespace, trim, trim_start,
};
use vstd::prelude::*;

verus! {

/// The number of blocks that open at or after line `from`: the lines at
/// depth 0.
pub open spec fn blocks(lines: Seq<(nat, Seq<char>)>, from: nat) -> nat
    decreases lines.len() - from,
{
    if from >= lines.len() {
        0
    } else if lines[from as int].0 == 0 {
        1 + blocks(lines, from + 1)
    } else {
        blocks(lines, from + 1)
    }
}

/// The number of listeners that a state comes to if nothing is refused:
/// those that are complete, the block that is open, and the blocks that
/// are still to open.
pub open spec fn owed(state: ParserView) -> nat {
    state.listeners.len() + blocks(state.lines, state.pos) + if state.builder.port is Some {
        1nat
    } else {
        0nat
    }
}

/// The state is inside a block, or right before the line that opens one.
pub open spec fn in_block(state: ParserView) -> bool {
    state.builder.port is Some || (state.pos < state.lines.len()
        && state.lines[state.pos as int].0 == 0)
}

/// The lines from `pos` on begin a block, or there are none.
pub open spec fn at_block_end(state: ParserView) -> bool {
    state.pos >= state.lines.len() || state.lines[state.pos as int].0 == 0
}

/// Each of the listeners maps at least one path.
pub open spec fn all_valid(listeners: Seq<ListenerView>) -> bool {
    forall|i: int| 0 <= i < listeners.len() ==> (#[trigger] listeners[i]).valid()
}

/// The step is on its way to `n` listeners, each of them valid.
pub open spec fn on_way(step: StepView, n: nat) -> bool {
    match step {
        StepView::Resolve { state, name, path } => all_valid(state.listeners)
            && state.builder.port is Some && owed(state) == n && (path is None ==> at_block_end(
            state,
        )),
        StepView::Load { state, .. } => all_valid(state.listeners) && state.builder.port is Some
            && owed(state) == n,
        StepView::Done(listeners) => all_valid(listeners) && listeners.len() == n,
        StepView::Failed(_) => true,
    }
}

/// Nothing that a block has collected is lost in `later`: its server stays
/// as it is named, its mapped paths stay mapped as they are, and its `ssl`
/// entries stay set.
pub open spec fn kept(earlier: BuilderView, later: BuilderView) -> bool {
    &&& forall|key: Seq<char>| #[trigger]
        earlier.paths.contains_key(key) ==> later.paths.contains_key(key) && later.paths[key]
            == earlier.paths[key]
    &&& earlier.ssl.certificates is Some ==> later.ssl.certificates == earlier.ssl.certificates
    &&& earlier.ssl.certificate_key is Some ==> later.ssl.certificate_key
        == earlier.ssl.certificate_key
    &&& earlier.port is Some ==> later.port is Some
    &&& earlier.server is Some ==> later.server == earlier.server
}

/// Taking a line loses nothing of the block.
proof fn lemma_inserted_keeps(builder: BuilderView, directive: Directive, line: Seq<char>)
    ensures
        builder.inserted(directive, line) matches Ok((later, _)) ==> kept(builder, later),
{
}

/// Reading on from inside a block leads on the way to what the state owes.
proof fn lemma_advance_on_way(state: ParserView)
    requires
        in_block(state),
        all_valid(state.listeners),
    ensures
        on_way(state.advance(), owed(state)),
    decreases state.lines.len() - state.pos,
{
    if state.pos < state.lines.len() {
        let (depth, line) = state.lines[state.pos as int];
        let pos = state.pos + 1;
        if depth == 0 {
            if state.builder.port is None {
                match state.builder.inserted(Directive::Port, line) {
                    Err(_) => {},
                    Ok((builder, _)) => {
                        lemma_advance_on_way(ParserView { builder, pos, ..state });
                    },
                }
            }
        } else if depth == 1 {
            match split_once(line, ':') {
                None => {},
                Some((name, value)) => match Directive::resolved(trim(name)) {
                    Err(_) => {},
                    Ok(current) => if current.singular() {
                        match state.builder.inserted(current, value) {
                            Err(_) => {},
                            Ok((builder, _)) => {
                                lemma_advance_on_way(
                                    ParserView { builder, current, pos, ..state },
                                );
                            },
                        }
                    } else {
                        lemma_advance_on_way(ParserView { current, pos, ..state });
                    },
                },
            }
        } else if depth == 2 {
            match state.builder.inserted(state.current, line) {
                Err(_) => {},
                Ok((builder, need)) => {
                    if need is Nothing {
                        lemma_advance_on_way(ParserView { builder, pos, ..state });
                    }
                },
            }
        }
    }
}

/// An answer leads on the same way.
proof fn lemma_answered_on_way(step: StepView, answer: Answer, n: nat)
    requires
        on_way(step, n),
    ensures
        on_way(step.answered(answer), n),
{
    match step {
        StepView::Resolve { state, name, path } => match answer {
            Answer::Address(address) => match path {
                Some(path) => match state.builder.with_path(path, address) {
                    Err(_) => {},
                    Ok(builder) => {
                        lemma_advance_on_way(ParserView { builder, ..state });
                    },
                },
                None => match state.builder.built(address) {
                    Err(_) => {},
                    Ok(listener) => {
                        let listeners = state.listeners.push(listener);
                        assert(listener.valid());
                        if state.pos < state.lines.len() {
                            lemma_advance_on_way(
                                ParserView { builder: BuilderView::empty(), listeners, ..state },
                            );
                        }
                    },
                },
            },
            Answer::Contents(_) => {},
        },
        StepView::Load { state, directive, file } => match answer {
            Answer::Contents(contents) => match state.builder.with_file(directive, contents) {
                Err(_) => {},
                Ok(builder) => {
                    lemma_advance_on_way(ParserView { builder, ..state });
                },
            },
            Answer::Address(_) => {},
        },
        StepView::Done(_) => {},
        StepView::Failed(_) => {},
    }
}

/// Answers lead on the same way.
proof fn lemma_run_on_way(step: StepView, answers: Seq<Answer>, n: nat)
    requires
        on_way(step, n),
    ensures
        on_way(step.run(answers), n),
    decreases answers.len(),
{
    if answers.len() > 0 {
        lemma_answered_on_way(step, answers[0], n);
        lemma_run_on_way(step.answered(answers[0]), answers.drop_first(), n);
    }
}

/// A text that has an indentation structure has a first line, and that
/// line opens a block.
pub proof fn law_first_line_opens_a_block(text: Seq<char>)
    ensures
        measured(text) matches Ok(lines) ==> lines.len() > 0 && lines[0].0 == 0,
{
    let lines = normalize(text);
    let unit = least_nonzero(indents(lines));
    if measured(text) is Ok {
        lemma_least_nonzero(indents(lines));
        let i = choose|i: int| 0 <= i < indents(lines).len() && #[trigger] indents(lines)[i] == unit;
        assert(lines.len() > 0);
        let raw = crate::layout::content_lines(text);
        lemma_trim_start_clean(raw[0]);
        assert(lines[0] == trim_start(raw[0]));
        assert(lines[0].take(0) =~= Seq::<char>::empty());
        assert(indent(lines[0]) == 0);
        assert(with_depths(lines, unit)[0].0 == 0);
    }
}

/// Depths are exact: in a text that has an indentation structure, every
/// line is indented by exactly its depth times the unit, and is measured
/// with its content as it stands behind the indentation.
pub proof fn law_depths_are_exact(text: Seq<char>, i: int)
    requires
        measured(text) is Ok,
        0 <= i < normalize(text).len(),
    ensures
        measured(text) matches Ok(lines) && lines.len() == normalize(text).len() && lines[i].0
            * least_nonzero(indents(normalize(text))) == indent(normalize(text)[i]) && lines[i].1
            == trim_start(normalize(text)[i]),
{
    let lines = normalize(text);
    let unit = least_nonzero(indents(lines));
    let w = indent(lines[i]);
    assert(indents(lines)[i] == w);
    assert(w % unit == 0);
    assert((w / unit) * unit == w) by (nonlinear_arith)
        requires
            unit > 0,
            w % unit == 0,
    ;
}

/// One listener for each block: whatever the answers from outside, a text
/// that is read to its end gives exactly as many listeners as it has
/// lines at depth 0, and each of them maps at least one path.
pub proof fn law_one_listener_for_each_block(text: Seq<char>, answers: Seq<Answer>)
    ensures
        match (measured(text), parsed(text).run(answers)) {
            (Ok(lines), StepView::Done(listeners)) => {
                &&& listeners.len() == blocks(lines, 0)
                &&& forall|i: int| 0 <= i < listeners.len() ==> (#[trigger] listeners[i]).valid()
            },
            _ => true,
        },
{
    match measured(text) {
        Err(_) => {},
        Ok(lines) => {
            law_first_line_opens_a_block(text);
            let start = ParserView::start(lines);
            lemma_advance_on_way(start);
            lemma_run_on_way(parsed(text), answers, blocks(lines, 0));
        },
    }
}

/// Reading on completes no listener and loses none.
proof fn lemma_advance_keeps_listeners(state: ParserView)
    ensures
        state.advance().listeners() matches Some(listeners) ==> listeners == state.listeners,
    decreases state.lines.len() - state.pos,
{
    if state.pos < state.lines.len() {
        let (depth, line) = state.lines[state.pos as int];
        let pos = state.pos + 1;
        if depth == 0 {
            if state.builder.port is None {
                match state.builder.inserted(Directive::Port, line) {
                    Err(_) => {},
                    Ok((builder, _)) => {
                        lemma_advance_keeps_listeners(ParserView { builder, pos, ..state });
                    },
                }
            }
        } else if depth == 1 {
            match split_once(line, ':') {
                None => {},
                Some((name, value)) => match Directive::resolved(trim(name)) {
                    Err(_) => {},
                    Ok(current) => if current.singular() {
                        match state.builder.inserted(current, value) {
                            Err(_) => {},
                            Ok((builder, _)) => {
                                lemma_advance_keeps_listeners(
                                    ParserView { builder, current, pos, ..state },
                                );
                            },
                        }
                    } else {
                        lemma_advance_keeps_listeners(ParserView { current, pos, ..state });
                    },
                },
            }
        } else if depth == 2 {
            match state.builder.inserted(state.current, line) {
                Err(_) => {},
                Ok((builder, need)) => {
                    if need is Nothing {
                        lemma_advance_keeps_listeners(ParserView { builder, pos, ..state });
                    }
                },
            }
        }
    }
}

/// Listeners come in the order of their blocks: the answer that closes a
/// block puts the listener of that block behind those that are complete,
/// and no other answer changes the complete listeners.
pub proof fn law_listeners_join_in_order(step: StepView, answer: Answer)
    ensures
        match (step, answer) {
            (StepView::Resolve { state, name, path: None }, Answer::Address(address)) => match (
                state.builder.built(address),
                step.answered(answer).listeners(),
            ) {
                (Ok(listener), Some(listeners)) => listeners == state.listeners.push(listener),
                (Ok(_), None) => true,
                (Err(_), after) => after is None,
            },
            _ => match (step.listeners(), step.answered(answer).listeners()) {
                (Some(before), Some(after)) => after == before,
                (None, after) => after is None,
                (Some(_), None) => true,
            },
        },
{
    match step {
        StepView::Resolve { state, name, path } => match answer {
            Answer::Address(address) => match path {
                Some(path) => match state.builder.with_path(path, address) {
                    Err(_) => {},
                    Ok(builder) => {
                        lemma_advance_keeps_listeners(ParserView { builder, ..state });
                    },
                },
                None => match state.builder.built(address) {
                    Err(_) => {},
                    Ok(listener) => {
                        let listeners = state.listeners.push(listener);
                        if state.pos < state.lines.len() {
                            lemma_advance_keeps_listeners(
                                ParserView { builder: BuilderView::empty(), listeners, ..state },
                            );
                        }
                    },
                },
            },
            Answer::Contents(_) => {},
        },
        StepView::Load { state, directive, file } => match answer {
            Answer::Contents(contents) => match state.builder.with_file(directive, contents) {
                Err(_) => {},
                Ok(builder) => {
                    lemma_advance_keeps_listeners(ParserView { builder, ..state });
                },
            },
            Answer::Address(_) => {},
        },
        StepView::Done(_) => {},
        StepView::Failed(_) => {},
    }
}

/// The complete listeners only grow: those that a step holds are the
/// first of those that any later step holds.
pub proof fn law_listeners_only_grow(step: StepView, answers: Seq<Answer>)
    ensures
        match (step.listeners(), step.run(answers).listeners()) {
            (Some(before), Some(after)) => before.is_prefix_of(after),
            (None, after) => after is None,
            (Some(_), None) => true,
        },
    decreases answers.len(),
{
    if answers.len() > 0 {
        law_listeners_join_in_order(step, answers[0]);
        law_listeners_only_grow(step.answered(answers[0]), answers.drop_first());
    }
}

/// A text that is refused stays refused.
pub proof fn law_refused_stays_refused(step: StepView, answers: Seq<Answer>)
    requires
        step is Failed,
    ensures
        step.run(answers) == step,
    decreases answers.len(),
{
    if answers.len() > 0 {
        law_refused_stays_refused(step, answers.drop_first());
    }
}

/// Reading on loses nothing of the open block before the next step.
proof fn lemma_advance_keeps_block(state: ParserView, first: BuilderView)
    requires
        kept(first, state.builder),
    ensures
        match state.advance() {
            StepView::Resolve { state: next, .. } => kept(first, next.builder),
            StepView::Load { state: next, .. } => kept(first, next.builder),
            _ => true,
        },
    decreases state.lines.len() - state.pos,
{
    if state.pos < state.lines.len() {
        let (depth, line) = state.lines[state.pos as int];
        let pos = state.pos + 1;
        if depth == 0 {
            if state.builder.port is None {
                match state.builder.inserted(Directive::Port, line) {
                    Err(_) => {},
                    Ok((builder, _)) => {
                        lemma_inserted_keeps(state.builder, Directive::Port, line);
                        lemma_advance_keeps_block(ParserView { builder, pos, ..state }, first);
                    },
                }
            }
        } else if depth == 1 {
            match split_once(line, ':') {
                None => {},
                Some((name, value)) => match Directive::resolved(trim(name)) {
                    Err(_) => {},
                    Ok(current) => if current.singular() {
                        match state.builder.inserted(current, value) {
                            Err(_) => {},
                            Ok((builder, _)) => {
                                lemma_inserted_keeps(state.builder, current, value);
                                lemma_advance_keeps_block(
                                    ParserView { builder, current, pos, ..state },
                                    first,
                                );
                            },
                        }
                    } else {
                        lemma_advance_keeps_block(ParserView { current, pos, ..state }, first);
                    },
                },
            }
        } else if depth == 2 {
            match state.builder.inserted(state.current, line) {
                Err(_) => {},
                Ok((builder, need)) => {
                    lemma_inserted_keeps(state.builder, state.current, line);
                    if need is Nothing {
                        lemma_advance_keeps_block(ParserView { builder, pos, ..state }, first);
                    }
                },
            }
        }
    }
}

/// Within a block nothing is lost: while the parser waits inside a block,
/// an answer that is not refused leads to a step that still holds every
/// path that the block has mapped, as it was mapped, and every `ssl` entry
/// that it has set.
pub proof fn law_block_keeps_what_it_has(step: StepView, answer: Answer)
    ensures
        match (step.block(), step.answered(answer)) {
            (Some(block), StepView::Resolve { state, .. }) => kept(block, state.builder),
            (Some(block), StepView::Load { state, .. }) => kept(block, state.builder),
            _ => true,
        },
{
    match step {
        StepView::Resolve { state, name, path } => match answer {
            Answer::Address(address) => match path {
                Some(path) => match state.builder.with_path(path, address) {
                    Err(_) => {},
                    Ok(builder) => {
                        lemma_advance_keeps_block(ParserView { builder, ..state }, state.builder);
                    },
                },
                None => {},
            },
            Answer::Contents(_) => {},
        },
        StepView::Load { state, directive, file } => match answer {
            Answer::Contents(contents) => match state.builder.with_file(directive, contents) {
                Err(_) => {},
                Ok(builder) => {
                    lemma_advance_keeps_block(ParserView { builder, ..state }, state.builder);
                },
            },
            Answer::Address(_) => {},
        },
        StepView::Done(_) => {},
        StepView::Failed(_) => {},
    }
}

/// Each of `answers` is given to a step that waits inside a block: none of
/// them closes one.
pub open spec fn stays_in_block(step: StepView, answers: Seq<Answer>) -> bool
    decreases answers.len(),
{
    answers.len() == 0 || (step.block() is Some && stays_in_block(
        step.answered(answers[0]),
        answers.drop_first(),
    ))
}

/// A block only grows: as long as no answer closes the block, every later
/// step holds what the block held.
pub proof fn law_block_only_grows(step: StepView, answers: Seq<Answer>)
    requires
        stays_in_block(step, answers),
    ensures
        match (step.block(), step.run(answers)) {
            (Some(block), StepView::Resolve { state, .. }) => kept(block, state.builder),
            (Some(block), StepView::Load { state, .. }) => kept(block, state.builder),
            _ => true,
        },
    decreases answers.len(),
{
    if answers.len() > 0 {
        let next = step.answered(answers[0]);
        let rest = answers.drop_first();
        law_block_keeps_what_it_has(step, answers[0]);
        law_block_only_grows(next, rest);
        if rest.len() == 0 {
            assert(next.run(rest) == next);
        }
    }
}

/// No path twice in a block: once a block has mapped a path, and as long
/// as no answer closes the block, a further entry for that path refuses
/// the text, whatever the lookup of its target answers.
pub proof fn law_path_twice_in_a_block_is_refused(
    step: StepView,
    answers: Seq<Answer>,
    path: Seq<char>,
    address: Result<Option<SocketAddress>, Seq<char>>,
)
    requires
        step.block() matches Some(block) && block.paths.contains_key(path),
        stays_in_block(step, answers),
        step.run(answers) matches StepView::Resolve { path: Some(again), .. } && again == path,
    ensures
        step.run(answers).answered(Answer::Address(address)) is Failed,
{
    law_block_only_grows(step, answers);
}

/// No `ssl` entry twice in a block: once a block has set an entry, and as
/// long as no answer closes the block, the parser reads no further line
/// for that entry without refusing the text.
pub proof fn law_ssl_entry_twice_in_a_block_is_refused(
    step: StepView,
    answers: Seq<Answer>,
    line: Seq<char>,
)
    requires
        stays_in_block(step, answers),
        split_once(trim(line), ':') matches Some((name, _)) && match (
            step.block(),
            SslBuilderView::named(trim(name)),
        ) {
            (Some(block), Some(SslDirective::Certificate)) => block.ssl.certificates is Some,
            (Some(block), Some(SslDirective::CertificateKey)) => block.ssl.certificate_key
                is Some,
            _ => false,
        },
    ensures
        match step.run(answers) {
            StepView::Resolve { state, .. } => state.builder.inserted(Directive::Ssl, line)
                is Err,
            StepView::Load { state, .. } => state.builder.inserted(Directive::Ssl, line) is Err,
            _ => true,
        },
{
    law_block_only_grows(step, answers);
}

/// A path is mapped once in a block: whatever the lookup answers, a second
/// entry for a path that the block has mapped refuses the text.
pub proof fn law_path_twice_is_refused(
    state: ParserView,
    path: Seq<char>,
    answer: Result<Option<SocketAddress>, Seq<char>>,
)
    requires
        state.builder.paths.contains_key(path),
    ensures
        state.resolved(Some(path), answer) is Failed,
        state.builder.with_path(path, answer) is Err,
{
}

/// An `ssl` entry is set once in a block: a second line for an entry that
/// is set refuses the text, before any file is asked for.
pub proof fn law_ssl_entry_twice_is_refused(builder: BuilderView, line: Seq<char>)
    requires
        split_once(trim(line), ':') matches Some((name, _)) && match SslBuilderView::named(
            trim(name),
        ) {
            Some(SslDirective::Certificate) => builder.ssl.certificates is Some,
            Some(SslDirective::CertificateKey) => builder.ssl.certificate_key is Some,
            None => false,
        },
    ensures
        builder.inserted(Directive::Ssl, line) == Err::<(BuilderView, NeedView), Seq<char>>(
            "existing ssl directive with multiple values"@,
        ),
{
}

/// A block names its server once: a second server name refuses the line,
/// and leaves the first as it is.
pub proof fn law_server_twice_is_refused(builder: BuilderView, line: Seq<char>)
    requires
        builder.server is Some,
    ensures
        builder.inserted(Directive::Server, line) == Err::<(BuilderView, NeedView), Seq<char>>(
            "existing directive with multiple values"@,
        ),
{
}

/// No server twice in a block: once a block has named its server, and as
/// long as no answer closes the block, every later step holds a block that
/// refuses a further server name.
pub proof fn law_server_twice_in_a_block_is_refused(
    step: StepView,
    answers: Seq<Answer>,
    line: Seq<char>,
)
    requires
        stays_in_block(step, answers),
        step.block() matches Some(block) && block.server is Some,
    ensures
        match step.run(answers) {
            StepView::Resolve { state, .. } => state.builder.inserted(Directive::Server, line)
                is Err,
            StepView::Load { state, .. } => state.builder.inserted(Directive::Server, line)
                is Err,
            _ => true,
        },
{
    law_block_only_grows(step, answers);
}

/// A `server` line in a block that has named its server refuses the text.
pub proof fn law_server_line_twice_is_refused(state: ParserView)
    requires
        state.builder.server is Some,
        state.pos < state.lines.len(),
        state.lines[state.pos as int].0 == 1,
        split_once(state.lines[state.pos as int].1, ':') matches Some((name, _))
            && Directive::resolved(trim(name)) == Ok::<Directive, Seq<char>>(Directive::Server),
    ensures
        state.advance() == StepView::Failed("existing directive with multiple values"@),
{
}

/// A block without a path gives no listener, whatever else it holds and
/// whatever the lookup of its address answers.
pub proof fn law_block_without_paths_is_refused(
    state: ParserView,
    answer: Result<Option<SocketAddress>, Seq<char>>,
)
    requires
        state.builder.paths == Map::<Seq<char>, SocketAddress>::empty(),
    ensures
        state.builder.built(answer) is Err,
        state.resolved(None, answer) is Failed,
{
}

/// A block without a server gives no listener, whatever else it holds: the
/// text is refused when the block is closed, before anything is looked up.
pub proof fn law_block_without_server_is_refused(
    state: ParserView,
    answer: Result<Option<SocketAddress>, Seq<char>>,
)
    requires
        state.builder.server is None,
    ensures
        state.finish() is Failed,
        state.builder.built(answer) is Err,
        state.resolved(None, answer) is Failed,
{
}

/// A listener serves TLS where its block has set both the certificate and
/// the key, and plain HTTP where it lacks either.
pub proof fn law_ssl_needs_certificate_and_key(
    builder: BuilderView,
    answer: Result<Option<SocketAddress>, Seq<char>>,
)
    ensures
        builder.built(answer) matches Ok(listener) ==> (listener.ssl is Some <==> (
        builder.ssl.certificates is Some && builder.ssl.certificate_key is Some)),
{
}

/// `n` spaces.
pub open spec fn spaces(n: nat) -> Seq<char> {
    Seq::new(n, |i: int| ' ')
}

/// Each of `contents` behind as many units of spaces as its depth says.
pub open spec fn indented(contents: Seq<Seq<char>>, depths: Seq<nat>, unit: nat) -> Seq<
    Seq<char>,
> {
    Seq::new(contents.len(), |i: int| spaces(unit * depths[i]) + contents[i])
}

/// Each depth as a width in units.
pub open spec fn scaled(depths: Seq<nat>, unit: nat) -> Seq<nat> {
    Seq::new(depths.len(), |i: int| unit * depths[i])
}

/// Each content at its depth.
pub open spec fn at_depths(contents: Seq<Seq<char>>, depths: Seq<nat>) -> Seq<(nat, Seq<char>)> {
    Seq::new(contents.len(), |i: int| (depths[i], contents[i]))
}

/// `n` spaces take `n` bytes.
proof fn lemma_spaces_byte_len(n: nat)
    ensures
        byte_len(spaces(n)) == n,
    decreases n,
{
    if n > 0 {
        lemma_spaces_byte_len((n - 1) as nat);
        assert(spaces(n).drop_first() =~= spaces((n - 1) as nat));
    }
}

/// Content behind `n` spaces is indented by `n`, and is what is left when
/// the indentation is taken away.
proof fn lemma_indent_of_spaces(n: nat, content: Seq<char>)
    requires
        leading_whitespace(content) == 0,
    ensures
        leading_whitespace(spaces(n) + content) == n,
        indent(spaces(n) + content) == n,
        trim_start(spaces(n) + content) == content,
    decreases n,
{
    let line = spaces(n) + content;
    if n == 0 {
        assert(line =~= content);
    } else {
        lemma_indent_of_spaces((n - 1) as nat, content);
        assert(line[0] == ' ');
        assert(line.drop_first() =~= spaces((n - 1) as nat) + content);
    }
    assert(leading_whitespace(line) == n);
    assert(line.take(n as int) =~= spaces(n));
    lemma_spaces_byte_len(n);
    assert(line.skip(n as int) =~= content);
}

/// The least width that is not zero scales with the unit.
proof fn lemma_least_nonzero_scales(depths: Seq<nat>, unit: nat)
    requires
        unit > 0,
    ensures
        least_nonzero(scaled(depths, unit)) == unit * least_nonzero(depths),
    decreases depths.len(),
{
    if depths.len() > 0 {
        let front = depths.drop_last();
        lemma_least_nonzero_scales(front, unit);
        assert(scaled(depths, unit).drop_last() =~= scaled(front, unit));
        let w = depths.last();
        let least = least_nonzero(front);
        assert(scaled(depths, unit).last() == unit * w);
        assert(unit * w == 0 <==> w == 0) by (nonlinear_arith)
            requires
                unit > 0,
        ;
        assert(unit * least == 0 <==> least == 0) by (nonlinear_arith)
            requires
                unit > 0,
        ;
        assert(unit * w < unit * least <==> w < least) by (nonlinear_arith)
            requires
                unit > 0,
        ;
    } else {
        assert(unit * 0 == 0);
    }
}

/// The unit of indentation does not matter: lines that are indented by
/// spaces, each by as many units as its depth says, measure the same for
/// every unit as for the unit of one space. The unit that is found is the
/// unit that was used, times the least depth that is not zero; so where
/// some line lies at depth one, the unit is found as it was used, and
/// every line at the depth at which it was written.
pub proof fn law_indentation_unit_is_recovered(
    contents: Seq<Seq<char>>,
    depths: Seq<nat>,
    unit: nat,
)
    requires
        contents.len() == depths.len(),
        unit > 0,
        forall|i: int| 0 <= i < contents.len() ==> leading_whitespace(#[trigger] contents[i]) == 0,
    ensures
        indents(indented(contents, depths, unit)) == scaled(depths, unit),
        least_nonzero(indents(indented(contents, depths, unit))) == unit * least_nonzero(depths),
        measured_lines(indented(contents, depths, unit)) == measured_lines(
            indented(contents, depths, 1),
        ),
        depths.contains(1) ==> least_nonzero(indents(indented(contents, depths, unit))) == unit
            && measured_lines(indented(contents, depths, unit)) == Ok::<
            Seq<(nat, Seq<char>)>,
            Seq<char>,
        >(at_depths(contents, depths)),
{
    let wide = indented(contents, depths, unit);
    let narrow = indented(contents, depths, 1);
    let least = least_nonzero(depths);
    assert forall|i: int| 0 <= i < contents.len() implies indent(#[trigger] wide[i]) == unit
        * depths[i] && trim_start(wide[i]) == contents[i] by {
        lemma_indent_of_spaces(unit * depths[i], contents[i]);
    }
    assert forall|i: int| 0 <= i < contents.len() implies indent(#[trigger] narrow[i])
        == depths[i] && trim_start(narrow[i]) == contents[i] by {
        lemma_indent_of_spaces(1 * depths[i], contents[i]);
    }
    assert(indents(wide) =~= scaled(depths, unit));
    assert(indents(narrow) =~= depths);
    lemma_least_nonzero_scales(depths, unit);
    lemma_least_nonzero(depths);
    if least > 0 {
        assert(unit * least > 0) by (nonlinear_arith)
            requires
                unit > 0,
                least > 0,
        ;
        assert forall|i: int| 0 <= i < depths.len() implies ((unit * depths[i]) % (unit * least)
            == 0 <==> depths[i] % least == 0) && (unit * depths[i]) / (unit * least) == depths[i]
            / least by {
            vstd::arithmetic::div_mod::lemma_truncate_middle(
                depths[i] as int,
                unit as int,
                least as int,
            );
            vstd::arithmetic::div_mod::lemma_div_multiples_vanish_quotient(
                unit as int,
                depths[i] as int,
                least as int,
            );
            let r = depths[i] % least;
            assert(unit * r == 0 <==> r == 0) by (nonlinear_arith)
                requires
                    unit > 0,
            ;
        }
        assert(consistent(indents(wide), unit * least) <==> consistent(indents(narrow), least))
            by {
            if consistent(indents(wide), unit * least) {
                assert forall|i: int| 0 <= i < indents(narrow).len() implies #[trigger] indents(
                    narrow,
                )[i] % least == 0 by {
                    assert(indents(wide)[i] % (unit * least) == 0);
                }
            }
            if consistent(indents(narrow), least) {
                assert forall|i: int| 0 <= i < indents(wide).len() implies #[trigger] indents(
                    wide,
                )[i] % (unit * least) == 0 by {
                    assert(indents(narrow)[i] % least == 0);
                }
            }
        }
        assert(with_depths(wide, unit * least) =~= with_depths(narrow, least));
        if depths.contains(1) {
            let i = choose|i: int| 0 <= i < depths.len() && depths[i] == 1;
            assert(depths[i] > 0);
            assert(least == 1);
            assert(unit * 1 == unit);
            assert(with_depths(narrow, 1) =~= at_depths(contents, depths));
        }
    } else {
        assert(unit * 0 == 0);
        if depths.contains(1) {
            let i = choose|i: int| 0 <= i < depths.len() && depths[i] == 1;
            assert(depths[i] > 0);
        }
    }
}

/// The text whose lines are `lines`: each line but the last is followed by
/// a line feed.
pub open spec fn joined(lines: Seq<Seq<char>>) -> Seq<char>
    decreases lines.len(),
{
    if lines.len() == 0 {
        Seq::empty()
    } else if lines.len() == 1 {
        lines[0]
    } else {
        lines[0] + seq!['\n'] + joined(lines.drop_first())
    }
}

/// A line that counts as it stands: it holds something, ends in no white
/// space, and holds neither a line feed nor a comment.
pub open spec fn plain(line: Seq<char>) -> bool {
    &&& line.len() > 0
    &&& !is_whitespace(line.last())
    &&& index_of(line, '\n') == line.len()
    &&& index_of_pair(line, '/', '/') == line.len()
}

/// A character that `a` does not hold is found behind `a` where it is found
/// in what follows.
proof fn lemma_index_of_behind(a: Seq<char>, b: Seq<char>, c: char)
    requires
        forall|i: int| 0 <= i < a.len() ==> a[i] != c,
    ensures
        index_of(a + b, c) == a.len() + index_of(b, c),
    decreases a.len(),
{
    if a.len() == 0 {
        assert(a + b =~= b);
    } else {
        assert((a + b)[0] == a[0]);
        assert((a + b).drop_first() =~= a.drop_first() + b);
        assert forall|i: int| 0 <= i < a.drop_first().len() implies a.drop_first()[i] != c by {
            assert(a.drop_first()[i] == a[i + 1]);
        }
        lemma_index_of_behind(a.drop_first(), b, c);
    }
}

/// A pair whose first character `a` does not hold is found behind `a`
/// where it is found in what follows.
proof fn lemma_index_of_pair_behind(a: Seq<char>, b: Seq<char>, x: char, y: char)
    requires
        forall|i: int| 0 <= i < a.len() ==> a[i] != x,
    ensures
        index_of_pair(a + b, x, y) == a.len() + index_of_pair(b, x, y),
    decreases a.len(),
{
    if a.len() == 0 {
        assert(a + b =~= b);
    } else {
        assert((a + b)[0] == a[0]);
        assert((a + b).drop_first() =~= a.drop_first() + b);
        assert forall|i: int| 0 <= i < a.drop_first().len() implies a.drop_first()[i] != x by {
            assert(a.drop_first()[i] == a[i + 1]);
        }
        lemma_index_of_pair_behind(a.drop_first(), b, x, y);
        if (a + b).len() < 2 {
            assert(b.len() == 0);
            assert(a.drop_first() + b =~= Seq::<char>::empty());
        }
    }
}

/// A line that counts as it stands is its own content.
proof fn lemma_plain_is_clean(line: Seq<char>)
    requires
        plain(line),
    ensures
        clean(line) == line,
{
    assert(line.take(line.len() as int) =~= line);
    assert(trailing_whitespace(line) == 0);
}

/// A plain line behind spaces is plain.
proof fn lemma_indented_is_plain(n: nat, content: Seq<char>)
    requires
        plain(content),
    ensures
        plain(spaces(n) + content),
{
    let line = spaces(n) + content;
    assert(line.last() == content.last());
    lemma_index_of_behind(spaces(n), content, '\n');
    lemma_index_of_pair_behind(spaces(n), content, '/', '/');
}

/// Plain lines are the content lines of the text that they make.
proof fn lemma_content_lines_of_joined(lines: Seq<Seq<char>>)
    requires
        forall|i: int| 0 <= i < lines.len() ==> plain(#[trigger] lines[i]),
    ensures
        content_lines(joined(lines)) == lines,
    decreases lines.len(),
{
    let text = joined(lines);
    if lines.len() == 0 {
        assert(text.take(0) =~= Seq::<char>::empty());
        assert(trailing_whitespace(Seq::<char>::empty()) == 0);
        assert(content_lines(text) =~= lines);
    } else {
        let first = lines[0];
        assert(plain(first));
        lemma_plain_is_clean(first);
        crate::text::lemma_index_of(first, '\n');
        if lines.len() == 1 {
            assert(text.take(text.len() as int) =~= first);
            assert(content_lines(text) =~= lines);
        } else {
            let rest = lines.drop_first();
            let tail = seq!['\n'] + joined(rest);
            assert(text =~= first + tail);
            lemma_index_of_behind(first, tail, '\n');
            assert(tail[0] == '\n');
            assert(index_of(tail, '\n') == 0);
            assert(index_of(text, '\n') == first.len());
            assert(text.take(first.len() as int) =~= first);
            assert(text.skip(first.len() as int + 1) =~= joined(rest));
            assert forall|i: int| 0 <= i < rest.len() implies plain(#[trigger] rest[i]) by {
                assert(rest[i] == lines[i + 1]);
            }
            lemma_content_lines_of_joined(rest);
            assert(seq![first] + rest =~= lines);
        }
    }
}

/// The unit of indentation does not matter to a text: a text of plain
/// lines, the first of them not indented and each of the others indented
/// by spaces, by as many units as its depth says, measures the same for
/// every unit, and so it parses the same. Where some line lies at depth
/// one, every line is measured at the depth at which it was written.
pub proof fn law_text_measures_the_same_for_every_unit(
    contents: Seq<Seq<char>>,
    depths: Seq<nat>,
    unit: nat,
)
    requires
        contents.len() == depths.len(),
        contents.len() > 0,
        depths[0] == 0,
        unit > 0,
        forall|i: int|
            0 <= i < contents.len() ==> plain(#[trigger] contents[i]) && !is_whitespace(
                contents[i][0],
            ),
    ensures
        normalize(joined(indented(contents, depths, unit))) == indented(contents, depths, unit),
        measured(joined(indented(contents, depths, unit))) == measured(
            joined(indented(contents, depths, 1)),
        ),
        parsed(joined(indented(contents, depths, unit))) == parsed(
            joined(indented(contents, depths, 1)),
        ),
        depths.contains(1) ==> measured(joined(indented(contents, depths, unit))) == Ok::<
            Seq<(nat, Seq<char>)>,
            Seq<char>,
        >(at_depths(contents, depths)),
{
    lemma_normalize_of_indented(contents, depths, unit);
    lemma_normalize_of_indented(contents, depths, 1);
    law_indentation_unit_is_recovered(contents, depths, unit);
}

/// Normalising the text of indented plain lines gives the lines back.
proof fn lemma_normalize_of_indented(contents: Seq<Seq<char>>, depths: Seq<nat>, unit: nat)
    requires
        contents.len() == depths.len(),
        contents.len() > 0,
        depths[0] == 0,
        forall|i: int|
            0 <= i < contents.len() ==> plain(#[trigger] contents[i]) && !is_whitespace(
                contents[i][0],
            ),
    ensures
        normalize(joined(indented(contents, depths, unit))) == indented(contents, depths, unit),
        forall|i: int| 0 <= i < contents.len() ==> leading_whitespace(#[trigger] contents[i]) == 0,
{
    let lines = indented(contents, depths, unit);
    assert forall|i: int| 0 <= i < lines.len() implies plain(#[trigger] lines[i]) by {
        assert(plain(contents[i]));
        lemma_indented_is_plain(unit * depths[i], contents[i]);
    }
    lemma_content_lines_of_joined(lines);
    assert(plain(contents[0]));
    assert(unit * depths[0] == 0) by (nonlinear_arith)
        requires
            depths[0] == 0,
    ;
    assert(lines[0] =~= contents[0]);
    assert(leading_whitespace(lines[0]) == 0);
    assert(trim_start(lines[0]) =~= lines[0]);
    assert(lines.update(0, trim_start(lines[0])) =~= lines);
    assert forall|i: int| 0 <= i < contents.len() implies leading_whitespace(
        #[trigger] contents[i],
    ) == 0 by {
        assert(plain(contents[i]));
    }
}

/// Inconsistent indentation is never read as a structure: where some line
/// is indented by no whole number of units, measuring refuses the text,
/// and so does its parser, whatever the answers from outside.
pub proof fn law_inconsistent_indentation_is_refused(text: Seq<char>, i: int, answers: Seq<Answer>)
    requires
        0 <= i < normalize(text).len(),
        least_nonzero(indents(normalize(text))) > 0,
        indent(normalize(text)[i]) % least_nonzero(indents(normalize(text))) != 0,
    ensures
        measured(text) == Err::<Seq<(nat, Seq<char>)>, Seq<char>>("inconsistent indentation"@),
        parsed(text) == StepView::Failed("inconsistent indentation"@),
        parsed(text).run(answers) == StepView::Failed("inconsistent indentation"@),
{
    let lines = normalize(text);
    assert(indents(lines)[i] == indent(lines[i]));
    law_refused_stays_refused(parsed(text), answers);
}

/// A text in which no line is indented has no structure: measuring refuses
/// it, and so does its parser.
pub proof fn law_text_without_indentation_is_refused(text: Seq<char>, answers: Seq<Answer>)
    requires
        forall|i: int| 0 <= i < normalize(text).len() ==> indent(#[trigger] normalize(text)[i]) == 0,
    ensures
        measured(text) == Err::<Seq<(nat, Seq<char>)>, Seq<char>>("missing directives"@),
        parsed(text).run(answers) == StepView::Failed("missing directives"@),
{
    let lines = normalize(text);
    lemma_least_nonzero(indents(lines));
    if least_nonzero(indents(lines)) > 0 {
        let i = choose|i: int|
            0 <= i < indents(lines).len() && #[trigger] indents(lines)[i] == least_nonzero(
                indents(lines),
            );
        assert(indents(lines)[i] == indent(lines[i]));
    }
    law_refused_stays_refused(parsed(text), answers);
}

/// Lines `a` to `b` are one block: the first of them opens it, none of the
/// others opens one, and behind them the text ends or the next block opens.
pub open spec fn is_block(lines: Seq<(nat, Seq<char>)>, a: nat, b: nat) -> bool {
    &&& a < b <= lines.len()
    &&& lines[a as int].0 == 0
    &&& forall|k: int| a < k < b ==> (#[trigger] lines[k]).0 != 0
    &&& b < lines.len() ==> lines[b as int].0 == 0
}

/// The parser before the block that opens at line `a` of a text, with the
/// listeners of the blocks before it.
pub open spec fn block_in_text(
    lines: Seq<(nat, Seq<char>)>,
    a: nat,
    current: Directive,
    before: Seq<ListenerView>,
) -> ParserView {
    ParserView { lines, pos: a, builder: BuilderView::empty(), current, listeners: before }
}

/// The parser before the block of lines `a` to `b`, taken alone: no other
/// line of the text is there, and no listener.
pub open spec fn block_alone(lines: Seq<(nat, Seq<char>)>, a: nat, b: nat, current: Directive) -> ParserView {
    ParserView {
        lines: lines.subrange(a as int, b as int),
        pos: 0,
        builder: BuilderView::empty(),
        current,
        listeners: Seq::empty(),
    }
}

/// `alone` reads the block of lines `a` to `b` alone, and stands where
/// `whole` stands in reading it within the text: at the same line, with
/// the same block collected.
pub open spec fn reads_alone(whole: ParserView, alone: ParserView, a: nat, b: nat) -> bool {
    &&& is_block(whole.lines, a, b)
    &&& alone.lines == whole.lines.subrange(a as int, b as int)
    &&& a <= whole.pos <= b
    &&& alone.pos == whole.pos - a
    &&& alone.builder == whole.builder
    &&& alone.current == whole.current
    &&& alone.listeners == Seq::<ListenerView>::empty()
    &&& whole.pos == a ==> whole.builder.port is None
    &&& whole.pos > a ==> whole.builder.port is Some
}

/// The block reads within the text as it reads alone. While the block is
/// read, both readings need the same from outside, or refuse for the same
/// reason. When the block alone has given its one listener, the text holds
/// that listener behind those that were there before, unless it is refused
/// further on.
pub open spec fn alike(
    whole: StepView,
    alone: StepView,
    a: nat,
    b: nat,
    before: Seq<ListenerView>,
) -> bool {
    match alone {
        StepView::Failed(m) => whole == StepView::Failed(m),
        StepView::Resolve { state, name, path } => match whole {
            StepView::Resolve { state: w, name: n, path: p } => n == name && p == path
                && reads_alone(w, state, a, b) && w.listeners == before && (path is None ==> w.pos
                == b),
            _ => false,
        },
        StepView::Load { state, directive, file } => match whole {
            StepView::Load { state: w, directive: d, file: f } => d == directive && f == file
                && reads_alone(w, state, a, b) && w.listeners == before,
            _ => false,
        },
        StepView::Done(out) => out.len() == 1 && match whole.listeners() {
            Some(all) => before.push(out[0]).is_prefix_of(all),
            None => true,
        },
    }
}

/// Reading on within the text goes as reading on alone.
proof fn lemma_advance_alike(whole: ParserView, alone: ParserView, a: nat, b: nat)
    requires
        reads_alone(whole, alone, a, b),
    ensures
        alike(whole.advance(), alone.advance(), a, b, whole.listeners),
    decreases b - whole.pos,
{
    if whole.pos < b {
        let (depth, line) = whole.lines[whole.pos as int];
        assert(alone.lines[alone.pos as int] == whole.lines[whole.pos as int]);
        let pos = whole.pos + 1;
        let apos = alone.pos + 1;
        if depth == 0 {
            assert(whole.pos == a);
            match whole.builder.inserted(Directive::Port, line) {
                Err(_) => {},
                Ok((builder, _)) => {
                    lemma_advance_alike(
                        ParserView { builder, pos, ..whole },
                        ParserView { builder, pos: apos, ..alone },
                        a,
                        b,
                    );
                },
            }
        } else if depth == 1 {
            match split_once(line, ':') {
                None => {},
                Some((name, value)) => match Directive::resolved(trim(name)) {
                    Err(_) => {},
                    Ok(current) => if current.singular() {
                        match whole.builder.inserted(current, value) {
                            Err(_) => {},
                            Ok((builder, _)) => {
                                lemma_advance_alike(
                                    ParserView { builder, current, pos, ..whole },
                                    ParserView { builder, current, pos: apos, ..alone },
                                    a,
                                    b,
                                );
                            },
                        }
                    } else {
                        lemma_advance_alike(
                            ParserView { current, pos, ..whole },
                            ParserView { current, pos: apos, ..alone },
                            a,
                            b,
                        );
                    },
                },
            }
        } else if depth == 2 {
            match whole.builder.inserted(whole.current, line) {
                Err(_) => {},
                Ok((builder, need)) => {
                    if need is Nothing {
                        lemma_advance_alike(
                            ParserView { builder, pos, ..whole },
                            ParserView { builder, pos: apos, ..alone },
                            a,
                            b,
                        );
                    }
                },
            }
        }
    }
}

/// An answer leads both readings on alike.
proof fn lemma_answered_alike(
    whole: StepView,
    alone: StepView,
    answer: Answer,
    a: nat,
    b: nat,
    before: Seq<ListenerView>,
)
    requires
        alike(whole, alone, a, b, before),
    ensures
        alike(whole.answered(answer), alone.answered(answer), a, b, before),
{
    match alone {
        StepView::Failed(_) => {},
        StepView::Resolve { state, name, path } => {
            let w = whole->Resolve_state;
            match answer {
                Answer::Contents(_) => {},
                Answer::Address(address) => match path {
                    Some(path) => match state.builder.with_path(path, address) {
                        Err(_) => {},
                        Ok(builder) => {
                            lemma_advance_alike(
                                ParserView { builder, ..w },
                                ParserView { builder, ..state },
                                a,
                                b,
                            );
                        },
                    },
                    None => match state.builder.built(address) {
                        Err(_) => {},
                        Ok(listener) => {
                            let out = Seq::<ListenerView>::empty().push(listener);
                            assert(alone.answered(answer) == StepView::Done(out));
                            assert(out.len() == 1 && out[0] == listener);
                            let all = before.push(listener);
                            if w.pos < w.lines.len() {
                                lemma_advance_keeps_listeners(
                                    ParserView {
                                        builder: BuilderView::empty(),
                                        listeners: all,
                                        ..w
                                    },
                                );
                            }
                        },
                    },
                },
            }
        },
        StepView::Load { state, directive, file } => {
            let w = whole->Load_state;
            match answer {
                Answer::Address(_) => {},
                Answer::Contents(contents) => match state.builder.with_file(directive, contents) {
                    Err(_) => {},
                    Ok(builder) => {
                        lemma_advance_alike(
                            ParserView { builder, ..w },
                            ParserView { builder, ..state },
                            a,
                            b,
                        );
                    },
                },
            }
        },
        StepView::Done(out) => {
            law_listeners_join_in_order(whole, answer);
        },
    }
}

/// Answers lead both readings on alike.
proof fn lemma_run_alike(
    whole: StepView,
    alone: StepView,
    answers: Seq<Answer>,
    a: nat,
    b: nat,
    before: Seq<ListenerView>,
)
    requires
        alike(whole, alone, a, b, before),
    ensures
        alike(whole.run(answers), alone.run(answers), a, b, before),
    decreases answers.len(),
{
    if answers.len() > 0 {
        lemma_answered_alike(whole, alone, answers[0], a, b, before);
        lemma_run_alike(
            whole.answered(answers[0]),
            alone.answered(answers[0]),
            answers.drop_first(),
            a,
            b,
            before,
        );
    }
}

/// Each listener is of its own block: whatever the answers from outside, a
/// block is read within a text as it is read alone, where no other line of
/// the text is there. Both readings ask for the same names and files, in
/// the same order, and refuse for the same reasons; and the listener that
/// the block alone gives is the listener that the text holds for it, right
/// behind the listeners of the blocks before it. So the listener of a
/// block holds what is written in that block, and nothing of any other.
/// What a block does take over is the section that was named last, for
/// lines that lie below no section of its own.
pub proof fn law_listener_is_of_its_block(
    lines: Seq<(nat, Seq<char>)>,
    a: nat,
    b: nat,
    current: Directive,
    before: Seq<ListenerView>,
    answers: Seq<Answer>,
)
    requires
        is_block(lines, a, b),
    ensures
        alike(
            block_in_text(lines, a, current, before).advance().run(answers),
            block_alone(lines, a, b, current).advance().run(answers),
            a,
            b,
            before,
        ),
        block_alone(lines, a, b, current).advance().run(answers) matches StepView::Done(out)
            ==> out.len() == 1 && match block_in_text(lines, a, current, before).advance().run(
            answers,
        ).listeners() {
            Some(all) => all.len() > before.len() && all[before.len() as int] == out[0]
                && before.is_prefix_of(all),
            None => true,
        },
{
    let whole = block_in_text(lines, a, current, before);
    let alone = block_alone(lines, a, b, current);
    lemma_advance_alike(whole, alone, a, b);
    lemma_run_alike(whole.advance(), alone.advance(), answers, a, b, before);
    match alone.advance().run(answers) {
        StepView::Done(out) => {
            match whole.advance().run(answers).listeners() {
                Some(all) => {
                    let grown = before.push(out[0]);
                    assert(grown.is_prefix_of(all));
                    assert(grown[before.len() as int] == out[0]);
                    assert forall|i: int| 0 <= i < before.len() implies before[i] == all[i] by {
                        assert(grown[i] == before[i]);
                    }
                },
                None => {},
            }
        },
        _ => {},
    }
}

/// The first block of a text opens at its first line, with nothing before
/// it; and when a block is closed and the text goes on, the next block
/// opens right there, with nothing collected: no entry of a block goes
/// over into the next.
pub proof fn law_blocks_follow_one_another(
    text: Seq<char>,
    state: ParserView,
    address: Result<Option<SocketAddress>, Seq<char>>,
)
    ensures
        measured(text) matches Ok(lines) ==> is_block_start(lines, 0) && parsed(text)
            == block_in_text(lines, 0, Directive::Port, Seq::empty()).advance(),
        state.pos < state.lines.len() ==> (state.builder.built(address) matches Ok(listener)
            ==> state.resolved(None, address) == block_in_text(
            state.lines,
            state.pos,
            state.current,
            state.listeners.push(listener),
        ).advance()),
{
    law_first_line_opens_a_block(text);
}

/// A block can open at line `a`.
pub open spec fn is_block_start(lines: Seq<(nat, Seq<char>)>, a: nat) -> bool {
    a < lines.len() && lines[a as int].0 == 0
}

/// Reading on maps no path.
proof fn lemma_advance_keeps_paths(state: ParserView)
    ensures
        match state.advance() {
            StepView::Resolve { state: next, .. } => next.builder.paths == state.builder.paths,
            StepView::Load { state: next, .. } => next.builder.paths == state.builder.paths,
            _ => true,
        },
    decreases state.lines.len() - state.pos,
{
    if state.pos < state.lines.len() {
        let (depth, line) = state.lines[state.pos as int];
        let pos = state.pos + 1;
        if depth == 0 {
            if state.builder.port is None {
                match state.builder.inserted(Directive::Port, line) {
                    Err(_) => {},
                    Ok((builder, _)) => {
                        lemma_advance_keeps_paths(ParserView { builder, pos, ..state });
                    },
                }
            }
        } else if depth == 1 {
            match split_once(line, ':') {
                None => {},
                Some((name, value)) => match Directive::resolved(trim(name)) {
                    Err(_) => {},
                    Ok(current) => if current.singular() {
                        match state.builder.inserted(current, value) {
                            Err(_) => {},
                            Ok((builder, _)) => {
                                lemma_advance_keeps_paths(
                                    ParserView { builder, current, pos, ..state },
                                );
                            },
                        }
                    } else {
                        lemma_advance_keeps_paths(ParserView { current, pos, ..state });
                    },
                },
            }
        } else if depth == 2 {
            match state.builder.inserted(state.current, line) {
                Err(_) => {},
                Ok((builder, need)) => {
                    if need is Nothing {
                        lemma_advance_keeps_paths(ParserView { builder, pos, ..state });
                    }
                },
            }
        }
    }
}

/// The paths of a block are those that its lines name, each mapped to the
/// address that was answered for its target: the answer to the lookup for
/// a path maps that path and no other, no other answer maps any, and a
/// block that opens has no path mapped.
pub proof fn law_paths_are_as_answered(step: StepView, answer: Answer)
    ensures
        match step.answered(answer).collected() {
            None => true,
            Some(next) => match (step, answer) {
                (StepView::Resolve { state, path: Some(path), .. }, Answer::Address(address)) => {
                    &&& address matches Ok(Some(backend))
                    &&& !state.builder.paths.contains_key(path)
                    &&& next.paths == state.builder.paths.insert(path, backend)
                },
                (StepView::Resolve { state, path: None, .. }, Answer::Address(_)) => next.paths
                    == Map::<Seq<char>, SocketAddress>::empty(),
                (StepView::Resolve { state, .. }, Answer::Contents(_)) => next.paths
                    == state.builder.paths,
                (StepView::Load { state, .. }, _) => next.paths == state.builder.paths,
                _ => true,
            },
        },
{
    match step {
        StepView::Resolve { state, name, path } => match answer {
            Answer::Address(address) => match path {
                Some(path) => match state.builder.with_path(path, address) {
                    Err(_) => {},
                    Ok(builder) => {
                        lemma_advance_keeps_paths(ParserView { builder, ..state });
                    },
                },
                None => match state.builder.built(address) {
                    Err(_) => {},
                    Ok(listener) => {
                        if state.pos < state.lines.len() {
                            lemma_advance_keeps_paths(
                                ParserView {
                                    builder: BuilderView::empty(),
                                    listeners: state.listeners.push(listener),
                                    ..state
                                },
                            );
                        }
                    },
                },
            },
            Answer::Contents(_) => {},
        },
        StepView::Load { state, directive, file } => match answer {
            Answer::Contents(contents) => match state.builder.with_file(directive, contents) {
                Err(_) => {},
                Ok(builder) => {
                    lemma_advance_keeps_paths(ParserView { builder, ..state });
                },
            },
            Answer::Address(_) => {},
        },
        StepView::Done(_) => {},
        StepView::Failed(_) => {},
    }
}

/// A `paths` line asks for what it names: the parser stops at it to have
/// the address of its target, for the path that it writes.
pub proof fn law_paths_line_asks_for_its_target(state: ParserView)
    requires
        state.pos < state.lines.len(),
        state.lines[state.pos as int].0 == 2,
        state.current == Directive::Paths,
    ensures
        match split_once_pair(trim(state.lines[state.pos as int].1), '=', '>') {
            Some((path, target)) => if is_word(trim(path)) && is_word(trim(target)) {
                state.advance() == (StepView::Resolve {
                    state: ParserView { pos: state.pos + 1, ..state },
                    name: trim(target),
                    path: Some(trim(path)),
                })
            } else {
                state.advance() == StepView::Failed("invalid arguments"@)
            },
            None => state.advance() == StepView::Failed("invalid paths argument"@),
        },
{
}

/// The listener of a block is bound where its server and port say, and
/// maps what the block has mapped: the name that is looked up when the
/// block is closed is its server, a colon and its port, and the listener
/// holds the address that is answered, the paths of the block, and its TLS
/// material if the block has both parts of it.
pub proof fn law_listener_holds_its_block(
    state: ParserView,
    address: Result<Option<SocketAddress>, Seq<char>>,
)
    ensures
        state.builder.built(address) matches Ok(listener) ==> {
            &&& state.builder.port matches Some(port)
            &&& state.builder.server matches Some(server)
            &&& state.finish() == (StepView::Resolve {
                state,
                name: server + seq![':'] + crate::number::decimal(port as nat),
                path: None,
            })
            &&& address == Ok::<Option<SocketAddress>, Seq<char>>(Some(listener.addr))
            &&& listener.paths == state.builder.paths
            &&& listener.ssl == match state.builder.ssl.built() {
                Ok(ssl) => Some(ssl),
                Err(_) => None,
            }
            &&& state.resolved(None, address).listeners() matches Some(all) ==> all.len()
                > state.listeners.len() && all[state.listeners.len() as int] == listener
        },
{
    match state.builder.built(address) {
        Err(_) => {},
        Ok(listener) => {
            law_listeners_join_in_order(
                StepView::Resolve { state, name: Seq::empty(), path: None },
                Answer::Address(address),
            );
        },
    }
}

} // verus!
