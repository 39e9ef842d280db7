//! Command-line arguments of the `magmahunt` tool: which options exist, how
//! their values are read, and the messages for malformed command lines.

use vstd::prelude::*;
use vstd::string::StringExecFns;
use crate::law::chars_of;
use crate::search::Options;
use crate::text::push_str;

verus! {

/// A decimal digit.
pub open spec fn is_digit(c: char) -> bool {
    '0' <= c && c <= '9'
}

/// The number that a string of decimal digits denotes.
pub open spec fn digits_value(ds: Seq<char>) -> nat
    decreases ds.len(),
{
    if ds.len() == 0 {
        0
    } else {
        digits_value(ds.drop_last()) * 10 + ((ds.last() as nat) - ('0' as nat)) as nat
    }
}

/// The digits of an unsigned number: one leading `+` is allowed.
pub open spec fn unsigned_digits(s: Seq<char>) -> Seq<char> {
    if s.len() > 0 && s[0] == '+' {
        s.drop_first()
    } else {
        s
    }
}

/// The `usize` that `s` denotes in decimal, as `str::parse::<usize>` reads it:
/// an optional `+`, then at least one digit and nothing else, at most `usize::MAX`.
pub open spec fn usize_text(s: Seq<char>) -> Option<usize> {
    let ds = unsigned_digits(s);
    if ds.len() > 0 && (forall|i: int| 0 <= i < ds.len() ==> #[trigger] is_digit(ds[i]))
        && digits_value(ds) <= usize::MAX {
        Some(digits_value(ds) as usize)
    } else {
        None
    }
}

/// Reads a non-negative decimal number.
pub fn parse_usize(s: &str) -> (r: Option<usize>)
    ensures
        r == usize_text(s@),
{
    let cs = chars_of(s);
    let mut start: usize = 0;
    if cs.len() > 0 && cs[0] == '+' {
        start = 1;
    }
    let ghost ds = unsigned_digits(s@);
    assert(ds =~= cs@.subrange(start as int, cs@.len() as int));
    if start == cs.len() {
        return None;
    }
    let mut value: usize = 0;
    let mut overflow = false;
    let mut i = start;
    while i < cs.len()
        invariant
            start <= i <= cs.len(),
            cs@ == s@,
            ds == unsigned_digits(s@),
            ds == cs@.subrange(start as int, cs@.len() as int),
            forall|k: int| start <= k < i ==> #[trigger] is_digit(cs@[k]),
            !overflow ==> value == digits_value(cs@.subrange(start as int, i as int)),
            overflow ==> digits_value(cs@.subrange(start as int, i as int)) > usize::MAX,
        decreases cs.len() - i,
    {
        let c = cs[i];
        if !('0' <= c && c <= '9') {
            assert(!is_digit(ds[i - start]));
            return None;
        }
        let d = (c as u32 - '0' as u32) as usize;
        assert(cs@.subrange(start as int, i + 1).drop_last() =~= cs@.subrange(start as int, i as int));
        if !overflow {
            match value.checked_mul(10) {
                Some(v10) => match v10.checked_add(d) {
                    Some(v) => {
                        value = v;
                    },
                    None => {
                        overflow = true;
                    },
                },
                None => {
                    overflow = true;
                },
            }
        }
        i = i + 1;
    }
    assert(cs@.subrange(start as int, i as int) =~= ds);
    assert forall|k: int| 0 <= k < ds.len() implies #[trigger] is_digit(ds[k]) by {
        assert(is_digit(cs@[start + k]));
    }
    if overflow {
        None
    } else {
        Some(value)
    }
}

/// The options and positional arguments of one command line.
pub struct Args {
    pub positional: Vec<String>,
    pub max_size: Option<usize>,
    pub size: Option<usize>,
    pub max_ops: Option<usize>,
    pub limit: Option<usize>,
    pub out_dir: Option<String>,
    pub symmetry: bool,
}

/// What a command line says, as plain values.
pub struct ArgsModel {
    pub positional: Seq<Seq<char>>,
    pub max_size: Option<usize>,
    pub size: Option<usize>,
    pub max_ops: Option<usize>,
    pub limit: Option<usize>,
    pub out_dir: Option<Seq<char>>,
    pub symmetry: bool,
}

/// The characters of each string, in order.
pub open spec fn texts(v: Seq<String>) -> Seq<Seq<char>> {
    v.map_values(|s: String| s@)
}

impl View for Args {
    type V = ArgsModel;

    open spec fn view(&self) -> ArgsModel {
        ArgsModel {
            positional: texts(self.positional@),
            max_size: self.max_size,
            size: self.size,
            max_ops: self.max_ops,
            limit: self.limit,
            out_dir: match self.out_dir {
                Some(d) => Some(d@),
                None => None,
            },
            symmetry: self.symmetry,
        }
    }
}

/// A command line with nothing on it: no positional argument, no option
/// given, symmetry breaking on.
pub open spec fn fresh_args() -> ArgsModel {
    ArgsModel {
        positional: Seq::empty(),
        max_size: None,
        size: None,
        max_ops: None,
        limit: None,
        out_dir: None,
        symmetry: true,
    }
}

/// An argument that starts with `--`.
pub open spec fn is_long_option(a: Seq<char>) -> bool {
    a.len() >= 2 && a[0] == '-' && a[1] == '-'
}

/// The message for an option whose value is missing.
pub open spec fn needs_value(name: Seq<char>) -> Seq<char> {
    name + " needs a value"@
}

/// The message for a numeric option whose value is not a number.
pub open spec fn not_a_count(name: Seq<char>, v: Seq<char>) -> Seq<char> {
    name + " expects a non-negative integer, got '"@ + v + "'"@
}

/// The message for an option that does not exist.
pub open spec fn unknown_option(flag: Seq<char>) -> Seq<char> {
    "unknown option "@ + flag
}

/// The value of the numeric option `name` read from `raw[j]`.
pub open spec fn number_value(raw: Seq<Seq<char>>, j: int, name: Seq<char>) -> Result<usize, Seq<char>> {
    if j < 0 || j >= raw.len() {
        Err(needs_value(name))
    } else {
        match usize_text(raw[j]) {
            Some(n) => Ok(n),
            None => Err(not_a_count(name, raw[j])),
        }
    }
}

pub open spec fn with_max_size(a: ArgsModel, n: usize) -> ArgsModel {
    ArgsModel { max_size: Some(n), ..a }
}

pub open spec fn with_size(a: ArgsModel, n: usize) -> ArgsModel {
    ArgsModel { size: Some(n), ..a }
}

pub open spec fn with_max_ops(a: ArgsModel, n: usize) -> ArgsModel {
    ArgsModel { max_ops: Some(n), ..a }
}

pub open spec fn with_limit(a: ArgsModel, n: usize) -> ArgsModel {
    ArgsModel { limit: Some(n), ..a }
}

/// Reads `raw[i..]` on top of what `acc` already holds. Options may come in
/// any order and between positional arguments; a repeated option keeps its
/// last value.
pub open spec fn args_from(raw: Seq<Seq<char>>, i: nat, acc: ArgsModel) -> Result<ArgsModel, Seq<char>>
    decreases raw.len() - i,
{
    if i >= raw.len() {
        Ok(acc)
    } else {
        let a = raw[i as int];
        if a == "--max-size"@ {
            match number_value(raw, (i + 1) as int, "--max-size"@) {
                Ok(n) => args_from(raw, i + 2, with_max_size(acc, n)),
                Err(e) => Err(e),
            }
        } else if a == "--size"@ {
            match number_value(raw, (i + 1) as int, "--size"@) {
                Ok(n) => args_from(raw, i + 2, with_size(acc, n)),
                Err(e) => Err(e),
            }
        } else if a == "--max-ops"@ {
            match number_value(raw, (i + 1) as int, "--max-ops"@) {
                Ok(n) => args_from(raw, i + 2, with_max_ops(acc, n)),
                Err(e) => Err(e),
            }
        } else if a == "--limit"@ {
            match number_value(raw, (i + 1) as int, "--limit"@) {
                Ok(n) => args_from(raw, i + 2, with_limit(acc, n)),
                Err(e) => Err(e),
            }
        } else if a == "--out-dir"@ {
            if i + 1 < raw.len() {
                args_from(raw, i + 2, ArgsModel { out_dir: Some(raw[(i + 1) as int]), ..acc })
            } else {
                Err(needs_value("--out-dir"@))
            }
        } else if a == "--no-symmetry"@ {
            args_from(raw, i + 1, ArgsModel { symmetry: false, ..acc })
        } else if is_long_option(a) {
            Err(unknown_option(a))
        } else {
            args_from(raw, i + 1, ArgsModel { positional: acc.positional.push(a), ..acc })
        }
    }
}

/// What [`parse_args`] gives back, as plain values.
pub open spec fn parsed_view(r: Result<Args, String>) -> Result<ArgsModel, Seq<char>> {
    match r {
        Ok(a) => Ok(a@),
        Err(e) => Err(e@),
    }
}

/// `name` followed by `tail`, as a new string.
fn joined(name: &str, tail: &str) -> (s: String)
    ensures
        s@ == name@ + tail@,
{
    let mut s = String::from_str(name);
    push_str(&mut s, tail);
    s
}

/// Reads the value of the numeric option `name` from `raw[j]`.
fn number(raw: &[String], j: usize, name: &str) -> (r: Result<usize, String>)
    ensures
        match r {
            Ok(n) => number_value(texts(raw@), j as int, name@) == Ok::<usize, Seq<char>>(n),
            Err(e) => number_value(texts(raw@), j as int, name@) == Err::<usize, Seq<char>>(e@),
        },
{
    if j >= raw.len() {
        return Err(joined(name, " needs a value"));
    }
    let v = &raw[j];
    assert(texts(raw@)[j as int] == v@);
    match parse_usize(v.as_str()) {
        Some(n) => Ok(n),
        None => {
            let mut s = joined(name, " expects a non-negative integer, got '");
            push_str(&mut s, v.as_str());
            push_str(&mut s, "'");
            Err(s)
        },
    }
}

/// Whether `a` is exactly the option `name`.
fn is_named(a: &String, name: &str) -> (b: bool)
    ensures
        b == (a@ == name@),
{
    *a == String::from_str(name)
}

/// Whether `a` starts with `--`.
fn starts_with_dashes(a: &String) -> (b: bool)
    ensures
        b == is_long_option(a@),
{
    let cs = chars_of(a.as_str());
    cs.len() >= 2 && cs[0] == '-' && cs[1] == '-'
}

/// Reads the arguments that follow the command name.
pub fn parse_args(raw: &[String]) -> (r: Result<Args, String>)
    ensures
        parsed_view(r) == args_from(texts(raw@), 0, fresh_args()),
{
    let ghost rv = texts(raw@);
    let mut args = Args {
        positional: Vec::new(),
        max_size: None,
        size: None,
        max_ops: None,
        limit: None,
        out_dir: None,
        symmetry: true,
    };
    assert(args@.positional =~= Seq::<Seq<char>>::empty());
    let mut i: usize = 0;
    while i < raw.len()
        invariant
            i <= raw.len(),
            rv == texts(raw@),
            args_from(rv, 0, fresh_args()) == args_from(rv, i as nat, args@),
        decreases raw.len() - i,
    {
        let a = &raw[i];
        assert(rv[i as int] == a@);
        if is_named(a, "--max-size") {
            match number(raw, i + 1, "--max-size") {
                Ok(n) => {
                    args.max_size = Some(n);
                    i = i + 2;
                },
                Err(e) => return Err(e),
            }
        } else if is_named(a, "--size") {
            match number(raw, i + 1, "--size") {
                Ok(n) => {
                    args.size = Some(n);
                    i = i + 2;
                },
                Err(e) => return Err(e),
            }
        } else if is_named(a, "--max-ops") {
            match number(raw, i + 1, "--max-ops") {
                Ok(n) => {
                    args.max_ops = Some(n);
                    i = i + 2;
                },
                Err(e) => return Err(e),
            }
        } else if is_named(a, "--limit") {
            match number(raw, i + 1, "--limit") {
                Ok(n) => {
                    args.limit = Some(n);
                    i = i + 2;
                },
                Err(e) => return Err(e),
            }
        } else if is_named(a, "--out-dir") {
            if i + 1 < raw.len() {
                assert(rv[i + 1] == raw@[i + 1]@);
                args.out_dir = Some(raw[i + 1].clone());
                i = i + 2;
            } else {
                return Err(joined("--out-dir", " needs a value"));
            }
        } else if is_named(a, "--no-symmetry") {
            args.symmetry = false;
            i = i + 1;
        } else if starts_with_dashes(a) {
            return Err(joined("unknown option ", a.as_str()));
        } else {
            let ghost before = args@;
            args.positional.push(a.clone());
            assert(args@.positional =~= before.positional.push(a@));
            i = i + 1;
        }
    }
    Ok(args)
}

/// Checks that exactly `count` positional arguments were given; `what` names
/// them in the message otherwise.
pub fn expect_positional(args: &Args, count: usize, what: &str) -> (r: Result<(), String>)
    ensures
        r is Ok <==> args.positional.len() == count,
        r matches Err(e) ==> e@ == "expected "@ + what@,
{
    if args.positional.len() != count {
        return Err(joined("expected ", what));
    }
    Ok(())
}

/// Search options for a command line: the defaults, with symmetry breaking as
/// the command line says.
pub fn options(args: &Args) -> (o: Options)
    ensures
        o.symmetry == args.symmetry,
        o.most_constrained,
{
    let d = Options::default();
    Options { symmetry: args.symmetry, ..d }
}

} // verus!
