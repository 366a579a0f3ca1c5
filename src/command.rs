//! Turning a line of input into a command.
use vstd::prelude::*;
use vstd::string::StringExecFns;

use crate::model::texts;
use crate::text::{lower_of, lowercase, text_eq};

verus! {

/// A request read from the player.
pub enum Command {
    /// Move through the exit with this direction token.
    Go(String),
    Inventory,
    Look,
    Take(String),
    Use(String),
    Help,
    Quit,
    /// The line held no words.
    Empty,
    /// The first word is no known verb; it is kept as typed.
    Unknown(String),
}

pub enum CommandView {
    Go(Seq<char>),
    Inventory,
    Look,
    Take(Seq<char>),
    Use(Seq<char>),
    Help,
    Quit,
    Empty,
    Unknown(Seq<char>),
}

impl View for Command {
    type V = CommandView;

    open spec fn view(&self) -> CommandView {
        match self {
            Command::Go(d) => CommandView::Go(d@),
            Command::Inventory => CommandView::Inventory,
            Command::Look => CommandView::Look,
            Command::Take(a) => CommandView::Take(a@),
            Command::Use(a) => CommandView::Use(a@),
            Command::Help => CommandView::Help,
            Command::Quit => CommandView::Quit,
            Command::Empty => CommandView::Empty,
            Command::Unknown(v) => CommandView::Unknown(v@),
        }
    }
}

/// The words of a line, split at whitespace, as Rust's `split_whitespace` gives them.
pub uninterp spec fn words_of(s: Seq<char>) -> Seq<Seq<char>>;

/// Words joined with single spaces.
pub open spec fn join_words(ws: Seq<Seq<char>>) -> Seq<char>
    decreases ws.len(),
{
    if ws.len() == 0 {
        Seq::empty()
    } else if ws.len() == 1 {
        ws[0]
    } else {
        join_words(ws.drop_last()) + seq![' '] + ws.last()
    }
}

/// The command that a line with these words asks for: the first word, in
/// lower case, picks the verb, and the other words joined with single spaces
/// are its argument.
pub open spec fn command_of(words: Seq<Seq<char>>) -> CommandView {
    if words.len() == 0 {
        CommandView::Empty
    } else {
        let v = lower_of(words[0]);
        let arg = join_words(words.skip(1));
        if v == "n"@ || v == "north"@ {
            CommandView::Go("n"@)
        } else if v == "s"@ || v == "south"@ {
            CommandView::Go("s"@)
        } else if v == "e"@ || v == "east"@ {
            CommandView::Go("e"@)
        } else if v == "w"@ || v == "west"@ {
            CommandView::Go("w"@)
        } else if v == "i"@ || v == "inventory"@ {
            CommandView::Inventory
        } else if v == "l"@ || v == "look"@ {
            CommandView::Look
        } else if v == "take"@ || v == "grab"@ {
            CommandView::Take(arg)
        } else if v == "use"@ {
            CommandView::Use(arg)
        } else if v == "q"@ || v == "quit"@ {
            CommandView::Quit
        } else if v == "help"@ {
            CommandView::Help
        } else {
            CommandView::Unknown(words[0])
        }
    }
}

/// Relies on `str::split_whitespace`: the words depend on the line's characters alone.
#[verifier::external_body]
fn split_words(line: &str) -> (r: Vec<String>)
    ensures
        texts(r@) == words_of(line@),
{
    line.split_whitespace().map(|w| w.to_string()).collect()
}

/// Joins the words after the first with single spaces.
fn argument_of(words: &Vec<String>) -> (r: String)
    requires
        words@.len() >= 1,
    ensures
        r@ == join_words(texts(words@).skip(1)),
{
    let ghost ws = texts(words@);
    let mut arg = String::new();
    if words.len() <= 1 {
        proof {
            assert(ws.skip(1) =~= Seq::<Seq<char>>::empty());
        }
        return arg;
    }
    let mut k: usize = 1;
    while k < words.len()
        invariant
            ws == texts(words@),
            1 <= k <= words@.len(),
            arg@ == join_words(ws.subrange(1, k as int)),
        decreases words@.len() - k,
    {
        proof {
            reveal_strlit(" ");
            let next = ws.subrange(1, k as int + 1);
            assert(next.drop_last() =~= ws.subrange(1, k as int));
            assert(next.last() == words@[k as int]@);
            if k == 1 {
                assert(ws.subrange(1, 1) =~= Seq::<Seq<char>>::empty());
            }
        }
        if k > 1 {
            arg.append(" ");
        }
        arg.append(words[k].as_str());
        proof {
            if k == 1 {
                assert(arg@ =~= ws[1]);
            } else {
                assert(arg@ =~= join_words(ws.subrange(1, k as int)) + seq![' '] + ws[k as int]);
            }
        }
        k = k + 1;
    }
    proof {
        assert(ws.subrange(1, words@.len() as int) =~= ws.skip(1));
    }
    arg
}

/// The command asked for by a line already split into words.
pub fn parse_words(words: &Vec<String>) -> (r: Command)
    ensures
        r@ == command_of(texts(words@)),
{
    if words.len() == 0 {
        return Command::Empty;
    }
    let verb = lowercase(words[0].as_str());
    let v = verb.as_str();
    if text_eq(v, "n") || text_eq(v, "north") {
        Command::Go(String::from_str("n"))
    } else if text_eq(v, "s") || text_eq(v, "south") {
        Command::Go(String::from_str("s"))
    } else if text_eq(v, "e") || text_eq(v, "east") {
        Command::Go(String::from_str("e"))
    } else if text_eq(v, "w") || text_eq(v, "west") {
        Command::Go(String::from_str("w"))
    } else if text_eq(v, "i") || text_eq(v, "inventory") {
        Command::Inventory
    } else if text_eq(v, "l") || text_eq(v, "look") {
        Command::Look
    } else if text_eq(v, "take") || text_eq(v, "grab") {
        Command::Take(argument_of(words))
    } else if text_eq(v, "use") {
        Command::Use(argument_of(words))
    } else if text_eq(v, "q") || text_eq(v, "quit") {
        Command::Quit
    } else if text_eq(v, "help") {
        Command::Help
    } else {
        Command::Unknown(words[0].clone())
    }
}

/// The command asked for by a line of input.
pub fn parse_command(line: &str) -> (r: Command)
    ensures
        r@ == command_of(words_of(line@)),
{
    let words = split_words(line);
    parse_words(&words)
}

} // verus!
