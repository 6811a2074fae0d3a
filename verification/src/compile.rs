//! The whole pipeline: from the texts of the units of a system to the
//! validated system.
//!
//! Each unit is lexed, parsed and ingested, in the order given; then the
//! merged declarations are validated. The first error of any stage ends the
//! compilation, and says in which unit it arose.

use vstd::prelude::*;
use crate::ast::{views, MartialFile, MartialFileView};
use crate::lexer::{
    classified, tokens_from, LexError, LexErrorView, Lexer, PositionedToken, PositionedTokenView,
};
use crate::parser::{file_rule, position_of, ParseError, ParseErrorView, Parser};
use crate::semantic::{
    first_violation, ingest, nothing_merged, system_of, MartialSystem, MartialSystemView, Merged,
    SemanticError, SemanticErrorView, SemanticValidator,
};
use crate::text::texts;

verus! {

/// Why a compilation failed. Units are counted from zero.
#[derive(Debug, PartialEq)]
#[allow(inconsistent_fields)]
pub enum CompileError {
    /// There is no unit at all.
    NoSources,
    /// A unit does not lex.
    Lex { unit: usize, error: LexError },
    /// A unit does not parse.
    Parse { unit: usize, error: ParseError },
    /// A unit holds a declaration that cannot be accepted.
    Ingest { unit: usize, error: SemanticError },
    /// The merged declarations do not form a valid system.
    Validate { error: SemanticError },
}

/// Model of a [`CompileError`].
#[allow(inconsistent_fields)]
pub enum CompileErrorView {
    NoSources,
    Lex { unit: int, error: LexErrorView },
    Parse { unit: int, error: ParseErrorView },
    Ingest { unit: int, error: SemanticErrorView },
    Validate { error: SemanticErrorView },
}

impl View for CompileError {
    type V = CompileErrorView;

    open spec fn view(&self) -> CompileErrorView {
        match self {
            CompileError::NoSources => CompileErrorView::NoSources,
            CompileError::Lex { unit, error } => CompileErrorView::Lex {
                unit: *unit as int,
                error: error@,
            },
            CompileError::Parse { unit, error } => CompileErrorView::Parse {
                unit: *unit as int,
                error: error@,
            },
            CompileError::Ingest { unit, error } => CompileErrorView::Ingest {
                unit: *unit as int,
                error: error@,
            },
            CompileError::Validate { error } => CompileErrorView::Validate { error: error@ },
        }
    }
}

/// What parsing the tokens of a whole unit gives: the syntax tree, or the
/// syntax error.
pub open spec fn parsed_file(tokens: Seq<PositionedTokenView>) -> Result<
    MartialFileView,
    ParseErrorView,
> {
    let parsed = file_rule(tokens, 0);
    match parsed.result {
        Ok(file) => Ok(file),
        Err(message) => Err(ParseErrorView { message, position: position_of(tokens, parsed.next) }),
    }
}

/// What lexing and parsing the text of a unit gives: the syntax tree, or the
/// error, a lexical error being reported as a syntax error with the same
/// message and position.
pub open spec fn parsed_text(text: Seq<char>) -> Result<MartialFileView, ParseErrorView> {
    match tokens_from(classified(text), 0) {
        Err(e) => Err(ParseErrorView { message: e.message, position: e.position }),
        Ok(tokens) => parsed_file(tokens),
    }
}

/// What one unit adds to the accumulated declarations `m`, or why it cannot
/// be added; `unit` is its number.
pub open spec fn with_unit(m: Merged, unit: int, text: Seq<char>) -> Result<
    Merged,
    CompileErrorView,
> {
    match tokens_from(classified(text), 0) {
        Err(error) => Err(CompileErrorView::Lex { unit, error }),
        Ok(tokens) => match parsed_file(tokens) {
            Err(error) => Err(CompileErrorView::Parse { unit, error }),
            Ok(file) => match ingest(m, file.declarations).error {
                Some(error) => Err(CompileErrorView::Ingest { unit, error }),
                None => Ok(ingest(m, file.declarations).merged),
            },
        },
    }
}

/// What the validator holds after one unit, whether or not the unit was
/// accepted as a whole.
pub open spec fn after_unit(m: Merged, text: Seq<char>) -> Merged {
    match tokens_from(classified(text), 0) {
        Err(_) => m,
        Ok(tokens) => match parsed_file(tokens) {
            Err(_) => m,
            Ok(file) => ingest(m, file.declarations).merged,
        },
    }
}

/// What the units give together, taken in order, or the first error.
pub open spec fn merged_units(texts: Seq<Seq<char>>) -> Result<Merged, CompileErrorView>
    decreases texts.len(),
{
    if texts.len() == 0 {
        Ok(nothing_merged())
    } else {
        match merged_units(texts.drop_last()) {
            Err(e) => Err(e),
            Ok(m) => with_unit(m, texts.len() - 1, texts.last()),
        }
    }
}

/// What compiling the units into the system called `name` gives.
pub open spec fn compiled(name: Seq<char>, texts: Seq<Seq<char>>) -> Result<
    MartialSystemView,
    CompileErrorView,
> {
    if texts.len() == 0 {
        Err(CompileErrorView::NoSources)
    } else {
        match merged_units(texts) {
            Err(e) => Err(e),
            Ok(m) => match first_violation(m, name) {
                Some(error) => Err(CompileErrorView::Validate { error }),
                None => Ok(system_of(name, m)),
            },
        }
    }
}

/// Once a prefix of the units has failed, the rest is not looked at.
pub proof fn lemma_merged_units_stop(texts: Seq<Seq<char>>, k: int)
    requires
        0 <= k <= texts.len(),
        merged_units(texts.take(k)) is Err,
    ensures
        merged_units(texts) == merged_units(texts.take(k)),
    decreases texts.len(),
{
    if k == texts.len() {
        assert(texts.take(k) =~= texts);
    } else {
        assert(texts.drop_last().take(k) =~= texts.take(k));
        lemma_merged_units_stop(texts.drop_last(), k);
    }
}

/// Lexes `text`: all its tokens up to and including the end of input.
pub fn tokenize_source(text: &str) -> (r: Result<Vec<PositionedToken>, LexError>)
    requires
        text@.len() < usize::MAX,
    ensures
        match r {
            Ok(tokens) => tokens_from(classified(text@), 0) == Ok::<
                Seq<PositionedTokenView>,
                LexErrorView,
            >(views(tokens@)),
            Err(e) => tokens_from(classified(text@), 0) == Err::<
                Seq<PositionedTokenView>,
                LexErrorView,
            >(e@),
        },
{
    let mut lexer = Lexer::new(text);
    lexer.tokenize()
}

/// Parses a whole token list.
pub fn parse_tokens(tokens: Vec<PositionedToken>) -> (r: Result<
    MartialFile,
    ParseError,
>)
    ensures
        match r {
            Ok(file) => parsed_file(views(tokens@)) == Ok::<MartialFileView, ParseErrorView>(file@),
            Err(e) => parsed_file(views(tokens@)) == Err::<MartialFileView, ParseErrorView>(e@),
        },
{
    let mut parser = Parser::new(tokens);
    parser.parse()
}

/// Lexes and parses the text of one unit. A lexical error is reported as a
/// syntax error with the same message and position.
pub fn parse_source(text: &str) -> (r: Result<MartialFile, ParseError>)
    requires
        text@.len() < usize::MAX,
    ensures
        match r {
            Ok(file) => parsed_text(text@) == Ok::<MartialFileView, ParseErrorView>(file@),
            Err(e) => parsed_text(text@) == Err::<MartialFileView, ParseErrorView>(e@),
        },
{
    match tokenize_source(text) {
        Err(e) => Err(ParseError::from(e)),
        Ok(tokens) => parse_tokens(tokens),
    }
}

/// Lexes, parses and ingests one unit, whose number is `unit`. A unit that
/// does not lex or parse leaves the validator as it was; one that holds a
/// declaration that cannot be accepted leaves it with what was accepted
/// before that declaration.
pub fn compile_unit(validator: &mut SemanticValidator, unit: usize, text: &str) -> (r: Result<
    (),
    CompileError,
>)
    requires
        old(validator).wf(),
        text@.len() < usize::MAX,
    ensures
        final(validator).wf(),
        final(validator)@ == after_unit(old(validator)@, text@),
        match r {
            Ok(_) => with_unit(old(validator)@, unit as int, text@) == Ok::<
                Merged,
                CompileErrorView,
            >(final(validator)@),
            Err(e) => with_unit(old(validator)@, unit as int, text@) == Err::<
                Merged,
                CompileErrorView,
            >(e@),
        },
{
    let tokens = match tokenize_source(text) {
        Ok(tokens) => tokens,
        Err(error) => {
            return Err(CompileError::Lex { unit, error });
        },
    };
    let file = match parse_tokens(tokens) {
        Ok(file) => file,
        Err(error) => {
            return Err(CompileError::Parse { unit, error });
        },
    };
    match validator.add_file(file) {
        Ok(_) => Ok(()),
        Err(error) => Err(CompileError::Ingest { unit, error }),
    }
}

/// Compiles the units `sources`, in order, into the system called `name`.
pub fn compile_system(name: String, sources: &Vec<String>) -> (r: Result<
    MartialSystem,
    CompileError,
>)
    requires
        forall|i: int| 0 <= i < sources.len() ==> (#[trigger] sources@[i])@.len() < usize::MAX,
    ensures
        match r {
            Ok(system) => compiled(name@, texts(sources@)) == Ok::<
                MartialSystemView,
                CompileErrorView,
            >(system@) && system.valid(),
            Err(e) => compiled(name@, texts(sources@)) == Err::<
                MartialSystemView,
                CompileErrorView,
            >(e@),
        },
{
    if sources.len() == 0 {
        return Err(CompileError::NoSources);
    }
    let ghost all = texts(sources@);
    let mut validator = SemanticValidator::new();
    let mut i: usize = 0;
    proof {
        assert(all.take(0) =~= Seq::<Seq<char>>::empty());
    }
    while i < sources.len()
        invariant
            i <= sources.len(),
            all == texts(sources@),
            validator.wf(),
            forall|k: int| 0 <= k < sources.len() ==> (#[trigger] sources@[k])@.len() < usize::MAX,
            merged_units(all.take(i as int)) == Ok::<Merged, CompileErrorView>(validator@),
        decreases sources.len() - i,
    {
        proof {
            assert(all.take(i + 1).drop_last() =~= all.take(i as int));
            assert(all.take(i + 1).last() == sources@[i as int]@);
        }
        match compile_unit(&mut validator, i, sources[i].as_str()) {
            Ok(_) => {},
            Err(e) => {
                proof {
                    lemma_merged_units_stop(all, i + 1);
                }
                return Err(e);
            },
        }
        i += 1;
    }
    proof {
        assert(all.take(i as int) =~= all);
    }
    match validator.validate(name) {
        Ok(system) => Ok(system),
        Err(error) => Err(CompileError::Validate { error }),
    }
}

} // verus!
