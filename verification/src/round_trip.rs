//! Printing a law and parsing the text back gives the same law.
//!
//! The proof follows the two stages of the parser: the printed text lexes to
//! the tokens of the term trees, and those tokens parse back to the trees,
//! with the names numbered in the order the printer wrote them.

use vstd::prelude::*;
use crate::law::{
    byte_len, chars_left, ident_char, ident_len, ident_start, is_op_char, lex, lex_from, lemma_name_index, name_index,
    law_text, parse_factor, parse_law_chars, parse_rest, parse_term, space_char, term_text, tokens_left, Lexeme, Term, MAX_VARS,
};

verus! {

/// A name that the lexer reads back as one identifier: its first character
/// is no punctuation, operation symbol or white space and starts a name, and
/// the others continue it.
pub open spec fn readable_name(s: Seq<char>) -> bool {
    &&& s.len() > 0
    &&& s[0] != '(' && s[0] != ')' && s[0] != '='
    &&& !is_op_char(s[0]) && !space_char(s[0])
    &&& ident_start(s[0])
    &&& forall|i: int| 1 <= i < s.len() ==> #[trigger] ident_char(s[i])
}

/// The tokens of the printed form of a term.
pub open spec fn term_lexemes(t: Term, names: Seq<Seq<char>>, top: bool) -> Seq<Lexeme>
    decreases t,
{
    match t {
        Term::Var(v) => seq![Lexeme::Ident(names[v as int])],
        Term::Op(l, r) => {
            let inner = term_lexemes(*l, names, false) + seq![Lexeme::Op] + term_lexemes(*r, names, false);
            if top {
                inner
            } else {
                seq![Lexeme::LParen] + inner + seq![Lexeme::RParen]
            }
        },
    }
}

/// The kinds of a token sequence, without their offsets.
pub open spec fn kinds(toks: Seq<(Lexeme, nat)>) -> Seq<Lexeme> {
    toks.map_values(|p: (Lexeme, nat)| p.0)
}

/// The kinds of the tokens that lexing from position `i` gives, if it succeeds.
pub open spec fn lexed_kinds(cs: Seq<char>, i: nat) -> Option<Seq<Lexeme>> {
    match lex_from(cs, i, Seq::empty()) {
        Ok(r) => Some(kinds(r)),
        Err(_) => None,
    }
}

/// `front` followed by the kinds in `rest`, if there are any.
pub open spec fn then_kinds(front: Seq<Lexeme>, rest: Option<Seq<Lexeme>>) -> Option<Seq<Lexeme>> {
    match rest {
        Some(k) => Some(front + k),
        None => None,
    }
}

/// Lexing with tokens already collected gives those tokens followed by what
/// lexing alone gives.
proof fn lemma_lex_acc(cs: Seq<char>, i: nat, acc: Seq<(Lexeme, nat)>)
    ensures
        lex_from(cs, i, acc) == (match lex_from(cs, i, Seq::empty()) {
            Ok(r) => Ok(acc + r),
            Err(e) => Err(e),
        }),
    decreases chars_left(cs, i),
{
    let e = Seq::<(Lexeme, nat)>::empty();
    if i >= cs.len() {
        assert(acc + e =~= acc);
    } else {
        let c = cs[i as int];
        let off = byte_len(cs.take(i as int));
        if c == '(' || c == ')' || c == '=' || is_op_char(c) || (!space_char(c) && ident_start(c)) {
            let j: nat = if c == '(' || c == ')' || c == '=' || is_op_char(c) {
                i + 1
            } else {
                i + 1 + ident_len(cs, (i + 1) as int)
            };
            let tok: (Lexeme, nat) = if c == '(' {
                (Lexeme::LParen, off)
            } else if c == ')' {
                (Lexeme::RParen, off)
            } else if c == '=' {
                (Lexeme::Eq, off)
            } else if is_op_char(c) {
                (Lexeme::Op, off)
            } else {
                (Lexeme::Ident(cs.subrange(i as int, j as int)), off)
            };
            assert(lex_from(cs, i, acc) == lex_from(cs, j, acc.push(tok)));
            assert(lex_from(cs, i, e) == lex_from(cs, j, e.push(tok)));
            lemma_lex_acc(cs, j, acc.push(tok));
            lemma_lex_acc(cs, j, e.push(tok));
            match lex_from(cs, j, e) {
                Ok(r) => {
                    assert(acc.push(tok) + r =~= acc + (e.push(tok) + r));
                },
                Err(_) => {},
            }
        } else if space_char(c) {
            lemma_lex_acc(cs, i + 1, acc);
        }
    }
}

proof fn lemma_then_kinds(x: Seq<Lexeme>, y: Seq<Lexeme>, o: Option<Seq<Lexeme>>)
    ensures
        then_kinds(x, then_kinds(y, o)) == then_kinds(x + y, o),
{
    match o {
        Some(k) => {
            assert(x + (y + k) =~= (x + y) + k);
        },
        None => {},
    }
}

/// A token that is a single character.
proof fn lemma_lex_single(cs: Seq<char>, i: nat, lx: Lexeme)
    requires
        i < cs.len(),
        (cs[i as int] == '(' && lx == Lexeme::LParen) || (cs[i as int] == ')' && lx == Lexeme::RParen) || (
        cs[i as int] == '=' && lx == Lexeme::Eq) || (is_op_char(cs[i as int]) && lx == Lexeme::Op),
    ensures
        lexed_kinds(cs, i) == then_kinds(seq![lx], lexed_kinds(cs, i + 1)),
{
    let tok = (lx, byte_len(cs.take(i as int)));
    let e = Seq::<(Lexeme, nat)>::empty();
    assert(lex_from(cs, i, e) == lex_from(cs, i + 1, e.push(tok)));
    lemma_lex_acc(cs, i + 1, e.push(tok));
    match lex_from(cs, i + 1, e) {
        Ok(r) => {
            assert(kinds(e.push(tok) + r) =~= seq![lx] + kinds(r));
        },
        Err(_) => {},
    }
}

/// A space is skipped.
proof fn lemma_lex_space(cs: Seq<char>, i: nat)
    requires
        i < cs.len(),
        cs[i as int] == ' ',
    ensures
        lexed_kinds(cs, i) == lexed_kinds(cs, i + 1),
{
    assert(space_char(' '));
}

/// The name characters from `i` on number `m` when the `m` characters from
/// `i` continue a name and the next one does not.
proof fn lemma_ident_len(cs: Seq<char>, i: int, m: nat)
    requires
        0 <= i,
        i + m <= cs.len(),
        forall|p: int| i <= p < i + m ==> #[trigger] ident_char(cs[p]),
        i + m == cs.len() || !ident_char(cs[i + m]),
    ensures
        ident_len(cs, i) == m,
    decreases m,
{
    if m > 0 {
        lemma_ident_len(cs, i + 1, (m - 1) as nat);
    }
}

/// A name followed by a character that cannot continue it is one token.
proof fn lemma_lex_name(cs: Seq<char>, i: nat, name: Seq<char>)
    requires
        readable_name(name),
        i + name.len() <= cs.len(),
        cs.subrange(i as int, (i + name.len()) as int) == name,
        i + name.len() == cs.len() || !ident_char(cs[(i + name.len()) as int]),
    ensures
        lexed_kinds(cs, i) == then_kinds(seq![Lexeme::Ident(name)], lexed_kinds(cs, i + name.len())),
{
    let j = i + name.len();
    assert(cs[i as int] == name[0]);
    assert forall|p: int| i + 1 <= p < j implies #[trigger] ident_char(cs[p]) by {
        assert(cs[p] == name[p - i]);
    }
    lemma_ident_len(cs, (i + 1) as int, (name.len() - 1) as nat);
    let tok = (Lexeme::Ident(name), byte_len(cs.take(i as int)));
    let e = Seq::<(Lexeme, nat)>::empty();
    assert(lex_from(cs, i, e) == lex_from(cs, j, e.push(tok)));
    lemma_lex_acc(cs, j, e.push(tok));
    match lex_from(cs, j, e) {
        Ok(r) => {
            assert(kinds(e.push(tok) + r) =~= seq![Lexeme::Ident(name)] + kinds(r));
        },
        Err(_) => {},
    }
}

/// Every variable of `t` has a name that reads back as one token.
pub open spec fn names_readable(names: Seq<Seq<char>>) -> bool {
    forall|i: int| 0 <= i < names.len() ==> #[trigger] readable_name(names[i])
}

/// The printed form of a term, followed by a character that cannot continue
/// a name, lexes to the tokens of the term.
proof fn lemma_lex_term(cs: Seq<char>, i: nat, t: Term, names: Seq<Seq<char>>, top: bool)
    requires
        t.vars_below(names.len() as int),
        names_readable(names),
        i + term_text(t, names, top).len() <= cs.len(),
        cs.subrange(i as int, (i + term_text(t, names, top).len()) as int) == term_text(t, names, top),
        i + term_text(t, names, top).len() == cs.len() || !ident_char(cs[(i + term_text(t, names, top).len()) as int]),
    ensures
        lexed_kinds(cs, i) == then_kinds(
            term_lexemes(t, names, top),
            lexed_kinds(cs, i + term_text(t, names, top).len()),
        ),
    decreases t,
{
    let text = term_text(t, names, top);
    match t {
        Term::Var(v) => {
            assert(readable_name(names[v as int]));
            lemma_lex_name(cs, i, names[v as int]);
        },
        Term::Op(l, r) => {
            let tl = term_text(*l, names, false);
            let tr = term_text(*r, names, false);
            let a: int = if top { i as int } else { i + 1int };
            reveal_strlit(" ◇ ");
            reveal_strlit("(");
            reveal_strlit(")");
            let m: int = a + tl.len();
            let b: int = m + 3;
            let z: int = b + tr.len();
            assert(text.len() == z - i + if top { 0int } else { 1int });
            assert forall|p: int| 0 <= p < tl.len() implies #[trigger] cs.subrange(a, m)[p] == tl[p] by {
                assert(cs[a + p] == text[a + p - i]);
            }
            assert(cs.subrange(a, m) =~= tl);
            assert forall|p: int| 0 <= p < tr.len() implies #[trigger] cs.subrange(b, z)[p] == tr[p] by {
                assert(cs[b + p] == text[b + p - i]);
            }
            assert(cs.subrange(b, z) =~= tr);
            assert(cs[m] == text[m - i]);
            assert(cs[m + 1] == text[m + 1 - i]);
            assert(cs[m + 2] == text[m + 2 - i]);
            assert(cs[m] == ' ');
            assert(cs[m + 1] == '◇');
            assert(cs[m + 2] == ' ');
            if !top {
                assert(cs[i as int] == text[0]);
                assert(cs[z] == text[z - i]);
                assert(cs[z] == ')');
            }
            lemma_lex_term(cs, a as nat, *l, names, false);
            lemma_lex_space(cs, m as nat);
            lemma_lex_single(cs, (m + 1) as nat, Lexeme::Op);
            lemma_lex_space(cs, (m + 2) as nat);
            lemma_lex_term(cs, b as nat, *r, names, false);
            let ll = term_lexemes(*l, names, false);
            let rl = term_lexemes(*r, names, false);
            if top {
                lemma_then_kinds(seq![Lexeme::Op], rl, lexed_kinds(cs, z as nat));
                lemma_then_kinds(ll, seq![Lexeme::Op] + rl, lexed_kinds(cs, z as nat));
                assert(ll + (seq![Lexeme::Op] + rl) =~= ll + seq![Lexeme::Op] + rl);
            } else {
                lemma_lex_single(cs, i, Lexeme::LParen);
                lemma_lex_single(cs, z as nat, Lexeme::RParen);
                let after = lexed_kinds(cs, (z + 1) as nat);
                lemma_then_kinds(rl, seq![Lexeme::RParen], after);
                lemma_then_kinds(seq![Lexeme::Op], rl + seq![Lexeme::RParen], after);
                lemma_then_kinds(ll, seq![Lexeme::Op] + (rl + seq![Lexeme::RParen]), after);
                lemma_then_kinds(seq![Lexeme::LParen], ll + (seq![Lexeme::Op] + (rl + seq![Lexeme::RParen])), after);
                assert(seq![Lexeme::LParen] + (ll + (seq![Lexeme::Op] + (rl + seq![Lexeme::RParen])))
                    =~= seq![Lexeme::LParen] + (ll + seq![Lexeme::Op] + rl) + seq![Lexeme::RParen]);
            }
        },
    }
}

/// How many names are known after reading `t` from left to right when `k`
/// are known before: a variable numbered `k` is the next new one.
pub open spec fn seen_after(t: Term, k: nat) -> nat
    decreases t,
{
    match t {
        Term::Var(v) => if v as nat == k {
            k + 1
        } else {
            k
        },
        Term::Op(l, r) => seen_after(*r, seen_after(*l, k)),
    }
}

/// Reading `t` from left to right with `k` names known, each variable is
/// either known already or the next new one: variables are numbered by
/// first use.
pub open spec fn in_first_use_order(t: Term, k: nat) -> bool
    decreases t,
{
    match t {
        Term::Var(v) => v as nat <= k,
        Term::Op(l, r) => in_first_use_order(*l, k) && in_first_use_order(*r, seen_after(*l, k)),
    }
}

proof fn lemma_seen_after(t: Term, k: nat)
    ensures
        k <= seen_after(t, k),
        in_first_use_order(t, k) ==> t.vars_below(seen_after(t, k) as int),
    decreases t,
{
    if let Term::Op(l, r) = t {
        lemma_seen_after(*l, k);
        lemma_seen_after(*r, seen_after(*l, k));
        if in_first_use_order(t, k) {
            crate::law::lemma_vars_below_mono(*l, seen_after(*l, k) as int, seen_after(t, k) as int);
        }
    }
}

/// The token at `pos` has kind `lx`.
proof fn lemma_kind_at(toks: Seq<(Lexeme, nat)>, pos: int, lxs: Seq<Lexeme>, p: int)
    requires
        0 <= pos,
        pos + lxs.len() <= toks.len(),
        kinds(toks).subrange(pos, pos + lxs.len()) == lxs,
        0 <= p < lxs.len(),
    ensures
        toks[pos + p].0 == lxs[p],
{
    assert(kinds(toks).subrange(pos, pos + lxs.len())[p] == kinds(toks)[pos + p]);
}

/// Tokens `pos..pos + a.len() + b.len()` of kinds `a + b` are tokens of
/// kinds `a` followed by tokens of kinds `b`.
proof fn lemma_kinds_split(toks: Seq<(Lexeme, nat)>, pos: int, a: Seq<Lexeme>, b: Seq<Lexeme>)
    requires
        0 <= pos,
        pos + a.len() + b.len() <= toks.len(),
        kinds(toks).subrange(pos, pos + a.len() + b.len()) == a + b,
    ensures
        kinds(toks).subrange(pos, pos + a.len()) == a,
        kinds(toks).subrange(pos + a.len(), pos + a.len() + b.len()) == b,
{
    let all = kinds(toks).subrange(pos, pos + a.len() + b.len());
    assert(kinds(toks).subrange(pos, pos + a.len()) =~= all.subrange(0, a.len() as int));
    assert((a + b).subrange(0, a.len() as int) =~= a);
    assert(kinds(toks).subrange(pos + a.len(), pos + a.len() + b.len()) =~= all.subrange(
        a.len() as int,
        (a.len() + b.len()) as int,
    ));
    assert((a + b).subrange(a.len() as int, (a.len() + b.len()) as int) =~= b);
}

/// A variable token reads back as the same variable.
proof fn lemma_parse_var(toks: Seq<(Lexeme, nat)>, end: nat, pos: nat, v: u8, names: Seq<Seq<char>>, k: nat)
    requires
        pos < toks.len(),
        toks[pos as int].0 == Lexeme::Ident(names[v as int]),
        v as nat <= k,
        seen_after(Term::Var(v), k) <= names.len() <= MAX_VARS,
        names.no_duplicates(),
    ensures
        parse_factor(toks, end, pos, names.take(k as int)) == Ok::<_, (Seq<char>, nat)>(
            (Term::Var(v), 1nat, names.take(seen_after(Term::Var(v), k) as int)),
        ),
{
    let known = names.take(k as int);
    let name = names[v as int];
    lemma_name_index(known, name);
    if (v as nat) < k {
        assert(known[v as int] == name);
        assert(known.contains(name));
        let idx = name_index(known, name);
        assert(names[idx] == names[v as int]);
    } else {
        if known.contains(name) {
            let q = choose|q: int| 0 <= q < known.len() && known[q] == name;
            assert(names[q] == names[v as int]);
        }
        assert(known.push(name) =~= names.take(k + 1int));
    }
}

/// The tokens of a parenthesised term, or of a variable, read back as a
/// factor: the same term, numbering new names in the order they come.
proof fn lemma_parse_factor(toks: Seq<(Lexeme, nat)>, end: nat, pos: nat, t: Term, names: Seq<Seq<char>>, k: nat)
    requires
        pos + term_lexemes(t, names, false).len() <= toks.len(),
        kinds(toks).subrange(pos as int, (pos + term_lexemes(t, names, false).len()) as int) == term_lexemes(t, names, false),
        in_first_use_order(t, k),
        seen_after(t, k) <= names.len() <= MAX_VARS,
        names.no_duplicates(),
    ensures
        parse_factor(toks, end, pos, names.take(k as int)) == Ok::<_, (Seq<char>, nat)>(
            (t, term_lexemes(t, names, false).len(), names.take(seen_after(t, k) as int)),
        ),
    decreases t, 1nat,
{
    let lxs = term_lexemes(t, names, false);
    match t {
        Term::Var(v) => {
            lemma_kind_at(toks, pos as int, lxs, 0);
            lemma_parse_var(toks, end, pos, v, names, k);
        },
        Term::Op(l, r) => {
            let inner = term_lexemes(t, names, true);
            lemma_kind_at(toks, pos as int, lxs, 0);
            assert(lxs =~= seq![Lexeme::LParen] + inner + seq![Lexeme::RParen]);
            assert(kinds(toks).subrange(pos + 1int, pos + 1int + inner.len()) =~= inner) by {
                assert forall|p: int| 0 <= p < inner.len() implies #[trigger] kinds(toks).subrange(
                    pos + 1int,
                    pos + 1int + inner.len(),
                )[p] == inner[p] by {
                    lemma_kind_at(toks, pos as int, lxs, p + 1);
                }
            }
            lemma_kind_at(toks, pos as int, lxs, inner.len() + 1int);
            lemma_parse_term(toks, end, pos + 1, t, names, k);
        },
    }
}

/// The tokens of a printed term, followed by anything but the operation,
/// read back as a term: the same term, numbering new names in the order
/// they come.
proof fn lemma_parse_term(toks: Seq<(Lexeme, nat)>, end: nat, pos: nat, t: Term, names: Seq<Seq<char>>, k: nat)
    requires
        pos + term_lexemes(t, names, true).len() <= toks.len(),
        kinds(toks).subrange(pos as int, (pos + term_lexemes(t, names, true).len()) as int) == term_lexemes(t, names, true),
        pos + term_lexemes(t, names, true).len() == toks.len()
            || !(toks[(pos + term_lexemes(t, names, true).len()) as int].0 is Op),
        in_first_use_order(t, k),
        seen_after(t, k) <= names.len() <= MAX_VARS,
        names.no_duplicates(),
    ensures
        parse_term(toks, end, pos, names.take(k as int)) == Ok::<_, (Seq<char>, nat)>(
            (t, term_lexemes(t, names, true).len(), names.take(seen_after(t, k) as int)),
        ),
    decreases t, 0nat,
{
    let lxs = term_lexemes(t, names, true);
    match t {
        Term::Var(v) => {
            lemma_kind_at(toks, pos as int, lxs, 0);
            lemma_parse_var(toks, end, pos, v, names, k);
            let nm = names.take(seen_after(t, k) as int);
            assert(parse_rest(toks, end, pos + 1, nm, t) == Ok::<_, (Seq<char>, nat)>((t, 0nat, nm)));
        },
        Term::Op(l, r) => {
            let ll = term_lexemes(*l, names, false);
            let rl = term_lexemes(*r, names, false);
            let k1 = seen_after(*l, k);
            lemma_seen_after(*l, k);
            lemma_seen_after(*r, k1);
            assert(lxs =~= ll + (seq![Lexeme::Op] + rl));
            lemma_kinds_split(toks, pos as int, ll, seq![Lexeme::Op] + rl);
            lemma_kinds_split(toks, (pos + ll.len()) as int, seq![Lexeme::Op], rl);
            lemma_kind_at(toks, (pos + ll.len()) as int, seq![Lexeme::Op], 0);
            lemma_parse_factor(toks, end, pos, *l, names, k);
            lemma_parse_factor(toks, end, pos + ll.len() + 1, *r, names, k1);
            let k2 = seen_after(*r, k1);
            let n1 = names.take(k1 as int);
            let n2 = names.take(k2 as int);
            let p1 = pos + ll.len();
            let p2 = p1 + 1 + rl.len();
            assert(Term::Op(Box::new(*l), Box::new(*r)) == t);
            assert(parse_rest(toks, end, p2, n2, t) == Ok::<_, (Seq<char>, nat)>((t, 0nat, n2)));
            assert(toks[p1 as int].0 is Op);
            assert(parse_rest(toks, end, p1, n1, *l) == Ok::<_, (Seq<char>, nat)>((t, (1 + rl.len()) as nat, n2)));
            assert(lxs.len() == ll.len() + 1 + rl.len());
        },
    }
}

/// Printing a law and parsing the text back gives the same two sides and the
/// same names, whenever the variables are numbered by first use and the
/// names are at most `MAX_VARS` distinct names that each read back as one name.
pub proof fn lemma_print_parse_round_trip(lhs: Term, rhs: Term, names: Seq<Seq<char>>)
    requires
        in_first_use_order(lhs, 0),
        in_first_use_order(rhs, seen_after(lhs, 0)),
        seen_after(rhs, seen_after(lhs, 0)) == names.len(),
        names.len() <= MAX_VARS,
        names.no_duplicates(),
        names_readable(names),
    ensures
        parse_law_chars(law_text(lhs, rhs, names)) == Ok::<_, (Seq<char>, nat)>((lhs, rhs, names)),
{
    let cs = law_text(lhs, rhs, names);
    let tl = term_text(lhs, names, true);
    let tr = term_text(rhs, names, true);
    reveal_strlit(" = ");
    let m = tl.len() as int;
    let b = m + 3;
    assert(cs.len() == b + tr.len());
    assert(cs.subrange(0, m) =~= tl);
    assert(cs.subrange(b, b + tr.len()) =~= tr);
    assert(cs[m] == ' ' && cs[m + 1] == '=' && cs[m + 2] == ' ');
    lemma_seen_after(lhs, 0);
    lemma_seen_after(rhs, seen_after(lhs, 0));
    crate::law::lemma_vars_below_mono(lhs, seen_after(lhs, 0) as int, names.len() as int);
    lemma_lex_term(cs, 0, lhs, names, true);
    lemma_lex_space(cs, m as nat);
    lemma_lex_single(cs, (m + 1) as nat, Lexeme::Eq);
    lemma_lex_space(cs, (m + 2) as nat);
    lemma_lex_term(cs, b as nat, rhs, names, true);
    let ll = term_lexemes(lhs, names, true);
    let rl = term_lexemes(rhs, names, true);
    let e = Seq::<(Lexeme, nat)>::empty();
    assert(lex_from(cs, cs.len(), e) == Ok::<_, (Seq<char>, nat)>(e));
    assert(kinds(e) =~= Seq::<Lexeme>::empty());
    assert(rl + Seq::<Lexeme>::empty() =~= rl);
    lemma_then_kinds(seq![Lexeme::Eq], rl, Some(Seq::<Lexeme>::empty()));
    lemma_then_kinds(ll, seq![Lexeme::Eq] + rl, Some(Seq::<Lexeme>::empty()));
    let all = ll + (seq![Lexeme::Eq] + rl);
    assert(lexed_kinds(cs, 0) == Some(all));
    let toks = lex(cs)->Ok_0;
    assert(lex(cs) is Ok);
    assert(kinds(toks) == all);
    assert(kinds(toks).subrange(0, all.len() as int) =~= all);
    lemma_kinds_split(toks, 0, ll, seq![Lexeme::Eq] + rl);
    lemma_kinds_split(toks, ll.len() as int, seq![Lexeme::Eq], rl);
    lemma_kind_at(toks, ll.len() as int, seq![Lexeme::Eq], 0);
    assert(names.take(0) =~= Seq::<Seq<char>>::empty());
    assert(names.take(names.len() as int) =~= names);
    let end = crate::law::byte_len(cs);
    lemma_parse_term(toks, end, 0, lhs, names, 0);
    lemma_parse_term(toks, end, ll.len() + 1, rhs, names, seen_after(lhs, 0));
}

/// Every name token holds a name that reads back as one name.
pub open spec fn idents_readable(toks: Seq<(Lexeme, nat)>) -> bool {
    forall|i: int| 0 <= i < toks.len() ==> ((#[trigger] toks[i]).0 matches Lexeme::Ident(name) ==> readable_name(name))
}

/// The characters that `ident_len` counts all continue a name.
proof fn lemma_ident_len_chars(cs: Seq<char>, i: int)
    requires
        0 <= i,
    ensures
        i + ident_len(cs, i) <= cs.len() || ident_len(cs, i) == 0,
        forall|p: int| i <= p < i + ident_len(cs, i) ==> #[trigger] ident_char(cs[p]),
    decreases cs.len() - i,
{
    if 0 <= i < cs.len() && ident_char(cs[i]) {
        lemma_ident_len_chars(cs, i + 1);
    }
}

/// The lexer only makes name tokens of names that read back as one name.
proof fn lemma_lex_readable(cs: Seq<char>, i: nat, acc: Seq<(Lexeme, nat)>)
    requires
        idents_readable(acc),
    ensures
        lex_from(cs, i, acc) matches Ok(r) ==> idents_readable(r),
    decreases chars_left(cs, i),
{
    if i < cs.len() {
        let c = cs[i as int];
        let off = byte_len(cs.take(i as int));
        if c == '(' || c == ')' || c == '=' || is_op_char(c) {
            let tok: (Lexeme, nat) = if c == '(' {
                (Lexeme::LParen, off)
            } else if c == ')' {
                (Lexeme::RParen, off)
            } else if c == '=' {
                (Lexeme::Eq, off)
            } else {
                (Lexeme::Op, off)
            };
            assert(idents_readable(acc.push(tok))) by {
                assert forall|q: int| 0 <= q < acc.push(tok).len() implies ((#[trigger] acc.push(tok)[q]).0 matches Lexeme::Ident(
                    name,
                ) ==> readable_name(name)) by {
                    if q < acc.len() {
                        assert(acc.push(tok)[q] == acc[q]);
                    }
                }
            }
            lemma_lex_readable(cs, i + 1, acc.push(tok));
        } else if space_char(c) {
            lemma_lex_readable(cs, i + 1, acc);
        } else if ident_start(c) {
            let j = i + 1 + ident_len(cs, (i + 1) as int);
            lemma_ident_len_chars(cs, (i + 1) as int);
            let name = cs.subrange(i as int, j as int);
            if j <= cs.len() {
                assert(readable_name(name)) by {
                    assert(name[0] == c);
                    assert forall|q: int| 1 <= q < name.len() implies #[trigger] ident_char(name[q]) by {
                        assert(name[q] == cs[i + q]);
                    }
                }
                let tok = (Lexeme::Ident(name), off);
                assert(idents_readable(acc.push(tok))) by {
                    assert forall|q: int| 0 <= q < acc.push(tok).len() implies ((#[trigger] acc.push(tok)[q]).0 matches Lexeme::Ident(
                        nm,
                    ) ==> readable_name(nm)) by {
                        if q < acc.len() {
                            assert(acc.push(tok)[q] == acc[q]);
                        }
                    }
                }
                lemma_lex_readable(cs, j, acc.push(tok));
            }
        }
    }
}

/// The names a parse knows: distinct, each readable, at most `MAX_VARS`.
pub open spec fn names_ok(names: Seq<Seq<char>>) -> bool {
    &&& names.no_duplicates()
    &&& names_readable(names)
    &&& names.len() <= MAX_VARS
}

/// `later` extends `earlier`.
pub open spec fn extends(later: Seq<Seq<char>>, earlier: Seq<Seq<char>>) -> bool {
    earlier.len() <= later.len() && later.take(earlier.len() as int) == earlier
}

proof fn lemma_extends_trans(a: Seq<Seq<char>>, b: Seq<Seq<char>>, c: Seq<Seq<char>>)
    requires
        extends(b, a),
        extends(c, b),
    ensures
        extends(c, a),
{
    assert(c.take(a.len() as int) =~= b.take(a.len() as int));
}

/// A factor that parses reads its variables in first-use order, and the
/// names known afterwards extend those known before by its new names.
proof fn lemma_factor_output(toks: Seq<(Lexeme, nat)>, end: nat, pos: nat, names: Seq<Seq<char>>)
    requires
        idents_readable(toks),
        names_ok(names),
    ensures
        parse_factor(toks, end, pos, names) matches Ok((t, u, nm)) ==> {
            &&& names_ok(nm)
            &&& extends(nm, names)
            &&& in_first_use_order(t, names.len())
            &&& seen_after(t, names.len()) == nm.len()
        },
    decreases tokens_left(toks, pos), 0nat,
{
    if pos < toks.len() {
        match toks[pos as int].0 {
            Lexeme::Ident(name) => {
                assert(readable_name(name));
                let i = name_index(names, name);
                lemma_name_index(names, name);
                assert(names.take(names.len() as int) =~= names);
                if i < 0 && names.len() != MAX_VARS {
                    let nm = names.push(name);
                    assert(nm.take(names.len() as int) =~= names);
                    assert(nm.no_duplicates()) by {
                        assert forall|a: int, b: int| 0 <= a < nm.len() && 0 <= b < nm.len() && a != b implies nm[a]
                            != nm[b] by {
                            if a < names.len() && b < names.len() {
                            } else if a < names.len() {
                                assert(names.contains(nm[a]));
                            } else {
                                assert(names.contains(nm[b]));
                            }
                        }
                    }
                    assert(names_readable(nm)) by {
                        assert forall|q: int| 0 <= q < nm.len() implies #[trigger] readable_name(nm[q]) by {
                            if q < names.len() {
                                assert(readable_name(names[q]));
                            }
                        }
                    }
                }
            },
            Lexeme::LParen => {
                lemma_term_output(toks, end, pos + 1, names);
            },
            _ => {},
        }
    }
}

/// A term that parses reads its variables in first-use order, and the names
/// known afterwards extend those known before by its new names.
proof fn lemma_term_output(toks: Seq<(Lexeme, nat)>, end: nat, pos: nat, names: Seq<Seq<char>>)
    requires
        idents_readable(toks),
        names_ok(names),
    ensures
        parse_term(toks, end, pos, names) matches Ok((t, u, nm)) ==> {
            &&& names_ok(nm)
            &&& extends(nm, names)
            &&& in_first_use_order(t, names.len())
            &&& seen_after(t, names.len()) == nm.len()
        },
    decreases tokens_left(toks, pos), 2nat,
{
    lemma_factor_output(toks, end, pos, names);
    match parse_factor(toks, end, pos, names) {
        Ok((t, u, nm)) => {
            lemma_rest_output(toks, end, pos + u, nm, t, names.len() as nat);
            match parse_rest(toks, end, pos + u, nm, t) {
                Ok((t2, u2, nm2)) => {
                    lemma_extends_trans(names, nm, nm2);
                },
                Err(_) => {},
            }
        },
        Err(_) => {},
    }
}

/// Extending a term read so far keeps first-use order, starting from the
/// `k` names known before it.
proof fn lemma_rest_output(
    toks: Seq<(Lexeme, nat)>,
    end: nat,
    pos: nat,
    names: Seq<Seq<char>>,
    acc: Term,
    k: nat,
)
    requires
        idents_readable(toks),
        names_ok(names),
        in_first_use_order(acc, k),
        seen_after(acc, k) == names.len(),
    ensures
        parse_rest(toks, end, pos, names, acc) matches Ok((t, u, nm)) ==> {
            &&& names_ok(nm)
            &&& extends(nm, names)
            &&& in_first_use_order(t, k)
            &&& seen_after(t, k) == nm.len()
        },
    decreases tokens_left(toks, pos), 1nat,
{
    if pos < toks.len() && toks[pos as int].0 is Op {
        lemma_factor_output(toks, end, pos + 1, names);
        match parse_factor(toks, end, pos + 1, names) {
            Ok((r, u, nm)) => {
                let next = Term::Op(Box::new(acc), Box::new(r));
                lemma_rest_output(toks, end, pos + 1 + u, nm, next, k);
                match parse_rest(toks, end, pos + 1 + u, nm, next) {
                    Ok((t2, u2, nm2)) => {
                        lemma_extends_trans(names, nm, nm2);
                    },
                    Err(_) => {},
                }
            },
            Err(_) => {},
        }
    } else {
        assert(names.take(names.len() as int) =~= names);
    }
}

/// Every law that parsing gives prints to a text that parses back to it:
/// the same two sides and the same names.
pub proof fn lemma_parsed_law_round_trip(cs: Seq<char>)
    requires
        parse_law_chars(cs) is Ok,
    ensures
        parse_law_chars(cs) matches Ok((lhs, rhs, names)) ==> parse_law_chars(law_text(lhs, rhs, names))
            == Ok::<_, (Seq<char>, nat)>((lhs, rhs, names)),
{
    let toks = lex(cs)->Ok_0;
    lemma_lex_readable(cs, 0, Seq::empty());
    let e = Seq::<Seq<char>>::empty();
    let end = byte_len(cs);
    lemma_term_output(toks, end, 0, e);
    let (lhs, u, nm) = parse_term(toks, end, 0, e)->Ok_0;
    lemma_term_output(toks, end, u + 1, nm);
    let (rhs, u2, nm2) = parse_term(toks, end, u + 1, nm)->Ok_0;
    lemma_print_parse_round_trip(lhs, rhs, nm2);
}

} // verus!
