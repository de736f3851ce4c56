//! Command-line options: listening host and port, and the graph file.

use vstd::prelude::*;

use crate::text::{chars_of, decimal, push_char, push_decimal};

verus! {

/// Where to listen and which graph to serve.
#[derive(Clone, Debug, PartialEq, Eq)]
pub struct Arguments {
    pub hostname: String,
    pub port: u16,
    pub graph_path: String,
}

/// A flag was given last, with no value after it.
#[derive(Clone, Debug, PartialEq, Eq)]
pub enum ArgumentError {
    MissingValue(String),
}

/// The options as mathematical values: host, port, graph path.
pub type ArgumentsView = (Seq<char>, u16, Seq<char>);

pub open spec fn arguments_view(a: Arguments) -> ArgumentsView {
    (a.hostname@, a.port, a.graph_path@)
}

pub open spec fn is_digit(c: char) -> bool {
    48 <= c as u32 && c as u32 <= 57
}

/// The value of a run of decimal digits.
pub open spec fn digits_value(s: Seq<char>) -> nat
    decreases s.len(),
{
    if s.len() == 0 {
        0
    } else {
        (digits_value(s.drop_last()) * 10 + s.last() as u32 - 48) as nat
    }
}

/// The digits of a port: the text without one leading `+`.
pub open spec fn port_digits(s: Seq<char>) -> Seq<char> {
    if s.len() > 0 && s[0] == '+' {
        s.drop_first()
    } else {
        s
    }
}

/// A port number written in decimal, as `u16`'s `FromStr` reads it: an
/// optional `+`, then at least one digit, with a value that fits.
pub open spec fn parsed_port(s: Seq<char>) -> Option<u16> {
    let d = port_digits(s);
    if d.len() > 0 && (forall|i: int| 0 <= i < d.len() ==> is_digit(#[trigger] d[i]))
        && digits_value(d) <= 65535 {
        Some(digits_value(d) as u16)
    } else {
        None
    }
}

/// The options after one flag and its value; an unknown flag changes nothing.
pub open spec fn applied(a: ArgumentsView, flag: Seq<char>, value: Seq<char>) -> ArgumentsView {
    if flag == "-h"@ || flag == "--hostname"@ {
        (value, a.1, a.2)
    } else if flag == "-p"@ || flag == "--port"@ {
        (
            a.0,
            match parsed_port(value) {
                Some(p) => p,
                None => a.1,
            },
            a.2,
        )
    } else if flag == "-g"@ || flag == "--graph"@ {
        (a.0, a.1, value)
    } else {
        a
    }
}

/// The options after the flag and value pairs from index `i` on.
pub open spec fn applied_from(a: ArgumentsView, args: Seq<Seq<char>>, i: int) -> ArgumentsView
    decreases args.len() - i,
{
    if i < 0 || i + 1 >= args.len() {
        a
    } else {
        applied_from(applied(a, args[i], args[i + 1]), args, i + 2)
    }
}

/// The arguments that hold options: all of them where the first is a flag,
/// else all but the first (the program's name).
pub open spec fn option_words(args: Seq<Seq<char>>) -> Seq<Seq<char>> {
    if args.len() > 0 && !(args[0].len() > 0 && args[0][0] == '-') {
        args.drop_first()
    } else {
        args
    }
}

fn same_text(s: &String, word: &str) -> (r: bool)
    ensures
        r == (s@ == word@),
{
    let a = chars_of(s.as_str());
    let b = chars_of(word);
    if a.len() != b.len() {
        return false;
    }
    let mut i: usize = 0;
    while i < a.len()
        invariant
            i <= a@.len(),
            a@.len() == b@.len(),
            a@ == s@,
            b@ == word@,
            forall|j: int| 0 <= j < i ==> a@[j] == b@[j],
        decreases a@.len() - i,
    {
        if a[i] != b[i] {
            return false;
        }
        i = i + 1;
    }
    assert(a@ =~= b@);
    true
}

proof fn lemma_digits_value_grows(s: Seq<char>, i: int)
    requires
        0 <= i <= s.len(),
        forall|j: int| 0 <= j < s.len() ==> is_digit(#[trigger] s[j]),
    ensures
        digits_value(s.take(i)) <= digits_value(s),
    decreases s.len() - i,
{
    if i < s.len() {
        lemma_digits_value_grows(s, i + 1);
        assert(s.take(i + 1).drop_last() =~= s.take(i));
    } else {
        assert(s.take(i) =~= s);
    }
}

/// Reads a port number as `u16`'s `FromStr` does.
pub fn parse_port(text: &String) -> (r: Option<u16>)
    ensures
        r == parsed_port(text@),
{
    let all = chars_of(text.as_str());
    let start: usize = if all.len() > 0 && all[0] == '+' {
        1
    } else {
        0
    };
    let ghost d = port_digits(text@);
    assert(d =~= all@.subrange(start as int, all@.len() as int));
    if start >= all.len() {
        return None;
    }
    let mut value: u32 = 0;
    let mut i: usize = start;
    while i < all.len()
        invariant
            start <= i <= all@.len(),
            all@ == text@,
            d == all@.subrange(start as int, all@.len() as int),
            d == port_digits(text@),
            d.len() > 0,
            forall|j: int| 0 <= j < i - start ==> is_digit(#[trigger] d[j]),
            value as nat == digits_value(d.take(i - start)),
            value <= 65535,
        decreases all@.len() - i,
    {
        let c = all[i];
        if !(48 <= c as u32 && c as u32 <= 57) {
            assert(d[i - start] == c);
            assert(!is_digit(d[i - start]));
            return None;
        }
        proof {
            assert(d.take(i - start + 1).drop_last() =~= d.take(i - start));
            assert(d.take(i - start + 1).last() == c);
        }
        let next = value * 10 + (c as u32 - 48);
        if next > 65535 {
            proof {
                assert(next as nat == digits_value(d.take(i - start + 1)));
                if forall|j: int| 0 <= j < d.len() ==> is_digit(#[trigger] d[j]) {
                    lemma_digits_value_grows(d, i - start + 1);
                }
            }
            return None;
        }
        value = next;
        i = i + 1;
    }
    assert(d.take(i - start) =~= d);
    Some(value as u16)
}

impl Arguments {
    /// `host:port`, the address to listen on.
    pub fn make_address(&self) -> (r: String)
        ensures
            r@ == self.hostname@ + seq![':'] + decimal(self.port as nat),
    {
        let mut out = self.hostname.clone();
        push_char(&mut out, ':');
        push_decimal(&mut out, self.port as usize);
        assert(out@ =~= self.hostname@ + seq![':'] + decimal(self.port as nat));
        out
    }

    /// Listen on every interface, on a port the system picks, and serve
    /// the graph under `./static`.
    pub fn new() -> (r: Arguments)
        ensures
            r.hostname@ == "0.0.0.0"@,
            r.port == 0,
            r.graph_path@ == "./static/graph.toml"@,
    {
        Arguments {
            hostname: "0.0.0.0".to_owned(),
            port: 0,
            graph_path: "./static/graph.toml".to_owned(),
        }
    }
}

/// Applies the options of a command line to the defaults: `-h`/`--hostname`,
/// `-p`/`--port` (kept as it was where the value is no port number) and
/// `-g`/`--graph`, each followed by its value; unknown flags are ignored.
/// A flag left without a value is an error.
pub fn parse_arguments(defaults: &Arguments, args: &Vec<String>) -> (r: Result<
    Arguments,
    ArgumentError,
>)
    ensures
        ({
            let words = option_words(args@.map_values(|s: String| s@));
            match r {
                Ok(a) => words.len() % 2 == 0 && arguments_view(a) == applied_from(
                    arguments_view(*defaults),
                    words,
                    0,
                ),
                Err(ArgumentError::MissingValue(flag)) => words.len() % 2 == 1 && flag@
                    == words.last(),
            }
        }),
{
    let ghost all = args@.map_values(|s: String| s@);
    let skip: usize = if args.len() > 0 && !(chars_of(args[0].as_str()).len() > 0 && chars_of(
        args[0].as_str(),
    )[0] == '-') {
        1
    } else {
        0
    };
    let ghost words = option_words(all);
    assert(words =~= all.subrange(skip as int, all.len() as int));
    let mut out = defaults.clone();
    let mut hostname = defaults.hostname.clone();
    let mut port = defaults.port;
    let mut graph_path = defaults.graph_path.clone();
    let mut i: usize = skip;
    while args.len() - i > 1
        invariant
            skip <= i <= args@.len(),
            (i - skip) % 2 == 0,
            words == all.subrange(skip as int, all.len() as int),
            all == args@.map_values(|s: String| s@),
            applied_from((hostname@, port, graph_path@), words, i - skip) == applied_from(
                arguments_view(*defaults),
                words,
                0,
            ),
        decreases args@.len() - i,
    {
        let flag = &args[i];
        let value = &args[i + 1];
        assert(words[i - skip] == flag@);
        assert(words[i - skip + 1] == value@);
        if same_text(flag, "-h") || same_text(flag, "--hostname") {
            hostname = value.clone();
        } else if same_text(flag, "-p") || same_text(flag, "--port") {
            match parse_port(value) {
                Some(p) => {
                    port = p;
                },
                None => {},
            }
        } else if same_text(flag, "-g") || same_text(flag, "--graph") {
            graph_path = value.clone();
        }
        i = i + 2;
    }
    if i < args.len() {
        assert(words.len() % 2 == 1);
        assert(words.last() == args@[i as int]@);
        return Err(ArgumentError::MissingValue(args[i].clone()));
    }
    out = Arguments { hostname, port, graph_path };
    Ok(out)
}

} // verus!
