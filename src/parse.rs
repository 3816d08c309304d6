use vstd::prelude::*;

verus! {

/// What a successful parse produces.
#[derive(Debug, PartialEq)]
pub enum Value {
    /// The value of the whitespace parser.
    Unit,
    /// The value of a literal-string parser: a copy of its literal.
    Str(String),
    /// The value of a literal-character parser.
    Char(char),
    /// The values of a sequence, one per child, in order.
    List(Vec<Value>),
}

/// Mathematical model of a `Value`.
pub enum Val {
    Unit,
    Str(Seq<char>),
    Char(char),
    List(Seq<Val>),
}

impl Value {
    /// The value as a mathematical object: strings as character sequences.
    pub open spec fn model(&self) -> Val
        decreases self,
    {
        match self {
            Value::Unit => Val::Unit,
            Value::Str(t) => Val::Str(t@),
            Value::Char(c) => Val::Char(*c),
            Value::List(vs) => Val::List(
                Seq::new(
                    vs.len() as nat,
                    |i: int|
                        if 0 <= i < vs.len() {
                            vs[i].model()
                        } else {
                            Val::Unit
                        },
                ),
            ),
        }
    }
}

/// The text `Expected <what> in <input>`.
pub open spec fn expected_message(what: Seq<char>, input: Seq<char>) -> Seq<char> {
    seq!['E', 'x', 'p', 'e', 'c', 't', 'e', 'd', ' '] + what + seq![' ', 'i', 'n', ' '] + input
}

fn expected(what: &str, input: &str) -> (r: String)
    ensures
        r@ == expected_message(what@, input@),
{
    let mut m = String::from_str("Expected ");
    m.append(what);
    m.append(" in ");
    m.append(input);
    proof {
        reveal_strlit("Expected ");
        reveal_strlit(" in ");
    }
    m
}

/// A parser: a reusable, immutable description of what to match.
#[derive(Debug)]
pub enum Parser {
    /// Matches one or more leading whitespace characters.
    Whitespace,
    /// Matches its literal as a prefix of the input.
    Literal(String),
    /// Matches one leading character.
    Char(char),
    /// Applies each child in turn to what the previous one left.
    Sequence(Vec<Parser>),
    /// Tries each child on the same input until one succeeds.
    Choice(Vec<Parser>),
}

/// The result of applying a parser in the model: the outcome (a value, or
/// an error message) and the remainder of the input.
pub type Outcome = (Result<Val, Seq<char>>, Seq<char>);

/// The model of what `Parser::parse` returns.
pub open spec fn outcome_of(r: (Result<Value, String>, &str)) -> Outcome {
    (
        match r.0 {
            Ok(v) => Ok(v.model()),
            Err(m) => Err(m@),
        },
        r.1@,
    )
}

/// `r` is what is left of `s` once some prefix of it is taken away.
pub open spec fn is_suffix(r: Seq<char>, s: Seq<char>) -> bool {
    r.len() <= s.len() && r == s.subrange(s.len() - r.len(), s.len() as int)
}

/// Whether a character has the Unicode `White_Space` property, as
/// `char::is_whitespace` decides it.
pub uninterp spec fn white_space(c: char) -> bool;

/// Relies on `char::is_whitespace`: true for characters with the Unicode
/// `White_Space` property.
#[verifier::external_body]
fn is_whitespace(c: char) -> (r: bool)
    ensures
        r == white_space(c),
{
    c.is_whitespace()
}

/// The number of whitespace characters in `s` from position `i` on, up to
/// the first other character, counted from the start of `s`.
pub open spec fn whitespace_end(s: Seq<char>, i: nat) -> nat
    decreases s.len() - i,
{
    if i < s.len() && white_space(s[i as int]) {
        whitespace_end(s, i + 1)
    } else {
        i
    }
}

/// The length of the leading run of whitespace in `s`.
pub open spec fn leading_whitespace(s: Seq<char>) -> nat {
    whitespace_end(s, 0)
}

/// Relies on `String::from(char)`: a string of that one character.
#[verifier::external_body]
fn char_text(c: char) -> (r: String)
    ensures
        r@ == seq![c],
{
    String::from(c)
}

/// The word that names what the whitespace parser expects.
pub open spec fn whitespace_word() -> Seq<char> {
    seq!['w', 'h', 'i', 't', 'e', 's', 'p', 'a', 'c', 'e']
}

/// The message of a choice among no parsers.
pub open spec fn no_alternatives_message() -> Seq<char> {
    seq!['n', 'o', ' ', 'a', 'l', 't', 'e', 'r', 'n', 'a', 't', 'i', 'v', 'e', 's', ' ', 'a', 'v', 'a', 'i', 'l', 'a', 'b', 'l', 'e']
}

/// Whitespace parser on `s`, given the length `k` of its leading whitespace.
pub open spec fn whitespace_outcome(s: Seq<char>, k: nat) -> Outcome {
    if k > 0 {
        (Ok(Val::Unit), s.subrange(k as int, s.len() as int))
    } else {
        (Err(expected_message(whitespace_word(), s)), s)
    }
}

/// Literal-string parser for `lit` on `s`.
pub open spec fn literal_outcome(lit: Seq<char>, s: Seq<char>) -> Outcome {
    if lit.len() <= s.len() && s.subrange(0, lit.len() as int) == lit {
        (Ok(Val::Str(lit)), s.subrange(lit.len() as int, s.len() as int))
    } else {
        (Err(expected_message(lit, s)), s)
    }
}

/// Literal-character parser for `c` on `s`.
pub open spec fn char_outcome(c: char, s: Seq<char>) -> Outcome {
    if s.len() > 0 && s[0] == c {
        (Ok(Val::Char(c)), s.drop_first())
    } else {
        (Err(expected_message(seq![c], s)), s)
    }
}

/// The outcome of `p` applied to the input `s`.
pub open spec fn parse_outcome(p: Parser, s: Seq<char>) -> Outcome
    decreases p, 0nat,
{
    match p {
        Parser::Whitespace => whitespace_outcome(s, leading_whitespace(s)),
        Parser::Literal(lit) => literal_outcome(lit@, s),
        Parser::Char(c) => char_outcome(c, s),
        Parser::Sequence(ps) => {
            let r = sequence_prefix(ps, ps.len() as nat, s);
            (
                match r.0 {
                    Ok(vs) => Ok(Val::List(vs)),
                    Err(m) => Err(m),
                },
                r.1,
            )
        },
        Parser::Choice(ps) => match choice_prefix(ps, ps.len() as nat, s) {
            Some(r) => r,
            None => (Err(no_alternatives_message()), s),
        },
    }
}

/// A sequence of the first `n` parsers of `ps` applied to `s`: the values so
/// far and the remainder, or the first failure's message with `s` itself.
pub open spec fn sequence_prefix(ps: Vec<Parser>, n: nat, s: Seq<char>) -> (
    Result<Seq<Val>, Seq<char>>,
    Seq<char>,
)
    decreases ps, n,
{
    if n == 0 || ps.len() < n {
        (Ok(seq![]), s)
    } else {
        let prev = sequence_prefix(ps, (n - 1) as nat, s);
        match prev.0 {
            Err(m) => prev,
            Ok(vs) => {
                let step = parse_outcome(ps[n - 1], prev.1);
                match step.0 {
                    Ok(v) => (Ok(vs.push(v)), step.1),
                    Err(m) => (Err(m), s),
                }
            },
        }
    }
}

/// An ordered choice among the first `n` parsers of `ps` on `s`: the first
/// success, else the last failure; `None` when there is no parser to try.
pub open spec fn choice_prefix(ps: Vec<Parser>, n: nat, s: Seq<char>) -> Option<Outcome>
    decreases ps, n,
{
    if n == 0 || ps.len() < n {
        None
    } else {
        let prev = choice_prefix(ps, (n - 1) as nat, s);
        if prev is Some && (prev->0).0 is Ok {
            prev
        } else {
            Some(parse_outcome(ps[n - 1], s))
        }
    }
}


/// The values of `vs`, modelled one by one.
pub open spec fn models(vs: Seq<Value>) -> Seq<Val> {
    Seq::new(vs.len(), |i: int| vs[i].model())
}

/// Finishes the whitespace parser on `s`, given the length `k` (in
/// characters) of the leading whitespace of `s`.
pub fn whitespace_from_count<'a>(s: &'a str, k: usize) -> (r: (Result<Value, String>, &'a str))
    requires
        k <= s@.len(),
    ensures
        outcome_of(r) == whitespace_outcome(s@, k as nat),
{
    if k > 0 {
        (Ok(Value::Unit), s.substring_char(k, s.unicode_len()))
    } else {
        let m = expected("whitespace", s);
        proof {
            reveal_strlit("whitespace");
            assert("whitespace"@ =~= whitespace_word());
        }
        (Err(m), s)
    }
}

fn parse_whitespace<'a>(s: &'a str) -> (r: (Result<Value, String>, &'a str))
    ensures
        outcome_of(r) == whitespace_outcome(s@, leading_whitespace(s@)),
{
    let n = s.unicode_len();
    let mut i: usize = 0;
    while i < n && is_whitespace(s.get_char(i))
        invariant
            n == s@.len(),
            i <= n,
            whitespace_end(s@, i as nat) == leading_whitespace(s@),
        decreases n - i,
    {
        i += 1;
    }
    whitespace_from_count(s, i)
}

fn parse_literal<'a>(lit: &str, s: &'a str) -> (r: (Result<Value, String>, &'a str))
    ensures
        outcome_of(r) == literal_outcome(lit@, s@),
{
    let n = lit.unicode_len();
    let m = s.unicode_len();
    if n > m {
        return (Err(expected(lit, s)), s);
    }
    let mut i: usize = 0;
    while i < n
        invariant
            n == lit@.len(),
            m == s@.len(),
            n <= m,
            i <= n,
            forall|j: int| 0 <= j < i ==> s@[j] == lit@[j],
        decreases n - i,
    {
        if s.get_char(i) != lit.get_char(i) {
            assert(s@.subrange(0, n as int)[i as int] != lit@[i as int]);
            return (Err(expected(lit, s)), s);
        }
        i += 1;
    }
    assert(s@.subrange(0, n as int) =~= lit@);
    (Ok(Value::Str(String::from_str(lit))), s.substring_char(n, m))
}

fn parse_char<'a>(c: char, s: &'a str) -> (r: (Result<Value, String>, &'a str))
    ensures
        outcome_of(r) == char_outcome(c, s@),
{
    if !s.is_empty() {
        let first = s.get_char(0);
        if first == c {
            let rest = s.substring_char(1, s.unicode_len());
            assert(rest@ =~= s@.drop_first());
            return (Ok(Value::Char(c)), rest);
        }
    }
    let ct = char_text(c);
    (Err(expected(ct.as_str(), s)), s)
}

/// Once a sequence has failed, the parsers after the failing one change nothing.
proof fn lemma_sequence_failure_stays(ps: Vec<Parser>, n: nat, k: nat, s: Seq<char>)
    requires
        n <= k <= ps.len(),
        sequence_prefix(ps, n, s).0 is Err,
    ensures
        sequence_prefix(ps, k, s) == sequence_prefix(ps, n, s),
    decreases k - n,
{
    if n < k {
        lemma_sequence_failure_stays(ps, n, (k - 1) as nat, s);
    }
}

/// Once a choice has succeeded, the parsers after the successful one are not tried.
proof fn lemma_choice_success_stays(ps: Vec<Parser>, n: nat, k: nat, s: Seq<char>)
    requires
        n <= k <= ps.len(),
        choice_prefix(ps, n, s) is Some,
        (choice_prefix(ps, n, s)->0).0 is Ok,
    ensures
        choice_prefix(ps, k, s) == choice_prefix(ps, n, s),
    decreases k - n,
{
    if n < k {
        lemma_choice_success_stays(ps, n, (k - 1) as nat, s);
    }
}

fn parse_sequence<'a>(ps: &Vec<Parser>, s: &'a str) -> (r: (Result<Value, String>, &'a str))
    ensures
        outcome_of(r) == parse_outcome(Parser::Sequence(*ps), s@),
    decreases ps, 0nat,
{
    let mut ts: Vec<Value> = Vec::new();
    let mut rest: &'a str = s;
    let mut i: usize = 0;
    assert(models(ts@) =~= seq![]);
    while i < ps.len()
        invariant
            i <= ps.len(),
            sequence_prefix(*ps, i as nat, s@) == (Ok::<Seq<Val>, Seq<char>>(models(ts@)), rest@),
        decreases ps.len() - i,
    {
        let (res, remain) = ps[i].parse(rest);
        match res {
            Ok(t) => {
                proof {
                    assert(models(ts@.push(t)) =~= models(ts@).push(t.model()));
                }
                rest = remain;
                ts.push(t);
            },
            Err(e) => {
                proof {
                    lemma_sequence_failure_stays(*ps, (i + 1) as nat, ps.len() as nat, s@);
                }
                return (Err(e), s);
            },
        }
        i += 1;
    }
    let ghost vs = ts@;
    let v = Value::List(ts);
    assert(v.model() == Val::List(models(vs))) by {
        assert(Val::List(models(vs))->List_0 =~= v.model()->List_0);
    }
    (Ok(v), rest)
}

fn parse_choice<'a>(ps: &Vec<Parser>, s: &'a str) -> (r: (Result<Value, String>, &'a str))
    ensures
        outcome_of(r) == parse_outcome(Parser::Choice(*ps), s@),
    decreases ps, 0nat,
{
    let mut last: Option<(Result<Value, String>, &'a str)> = None;
    let mut i: usize = 0;
    while i < ps.len()
        invariant
            i <= ps.len(),
            match last {
                None => i == 0 && choice_prefix(*ps, i as nat, s@) is None,
                Some(r) => choice_prefix(*ps, i as nat, s@) == Some(outcome_of(r)) && r.0 is Err,
            },
        decreases ps.len() - i,
    {
        let r = ps[i].parse(s);
        if r.0.is_ok() {
            proof {
                lemma_choice_success_stays(*ps, (i + 1) as nat, ps.len() as nat, s@);
            }
            return r;
        }
        last = Some(r);
        i += 1;
    }
    match last {
        Some(r) => r,
        None => {
            let m = String::from_str("no alternatives available");
            proof {
                reveal_strlit("no alternatives available");
                assert("no alternatives available"@ =~= no_alternatives_message());
            }
            (Err(m), s)
        },
    }
}

impl Parser {
    /// Applies the parser to `s`.
    pub fn parse<'a>(&self, s: &'a str) -> (r: (Result<Value, String>, &'a str))
        ensures
            outcome_of(r) == parse_outcome(*self, s@),
        decreases self, 1nat,
    {
        match self {
            Parser::Whitespace => parse_whitespace(s),
            Parser::Literal(lit) => parse_literal(lit.as_str(), s),
            Parser::Char(c) => parse_char(*c, s),
            Parser::Sequence(ps) => parse_sequence(ps, s),
            Parser::Choice(ps) => parse_choice(ps, s),
        }
    }
}


/// A parser that matches leading whitespace.
pub fn whitespacep() -> (p: Parser)
    ensures
        p == Parser::Whitespace,
{
    Parser::Whitespace
}

/// A parser that matches `s_match` as a prefix of its input; it owns a copy of it.
pub fn stringp(s_match: &str) -> (p: Parser)
    ensures
        p is Literal,
        p->Literal_0@ == s_match@,
{
    Parser::Literal(String::from_str(s_match))
}

/// A parser that matches `c` as the first character of its input.
pub fn charp(c: char) -> (p: Parser)
    ensures
        p == Parser::Char(c),
{
    Parser::Char(c)
}

/// A parser that applies each of `ps` in turn, all or nothing.
pub fn seq(ps: Vec<Parser>) -> (p: Parser)
    ensures
        p == Parser::Sequence(ps),
{
    Parser::Sequence(ps)
}

/// A parser that tries each of `ps` in order on the same input.
pub fn or(ps: Vec<Parser>) -> (p: Parser)
    ensures
        p == Parser::Choice(ps),
{
    Parser::Choice(ps)
}

proof fn lemma_suffix_trans(a: Seq<char>, b: Seq<char>, c: Seq<char>)
    requires
        is_suffix(a, b),
        is_suffix(b, c),
    ensures
        is_suffix(a, c),
{
    assert(a =~= c.subrange(c.len() - a.len(), c.len() as int));
}

proof fn lemma_suffix_refl(s: Seq<char>)
    ensures
        is_suffix(s, s),
{
    assert(s =~= s.subrange(0, s.len() as int));
}

proof fn lemma_whitespace_end_bound(s: Seq<char>, i: nat)
    requires
        i <= s.len(),
    ensures
        i <= whitespace_end(s, i) <= s.len(),
    decreases s.len() - i,
{
    if i < s.len() && white_space(s[i as int]) {
        lemma_whitespace_end_bound(s, i + 1);
    }
}

/// Whatever the parser and the input, the remainder is a suffix of the
/// input, and a failure hands back the input itself.
pub proof fn lemma_remainder_is_suffix(p: Parser, s: Seq<char>)
    ensures
        is_suffix(parse_outcome(p, s).1, s),
        parse_outcome(p, s).0 is Err ==> parse_outcome(p, s).1 == s,
    decreases p, 1nat,
{
    lemma_suffix_refl(s);
    match p {
        Parser::Whitespace => {
            let k = leading_whitespace(s);
            lemma_whitespace_end_bound(s, 0);
            assert(s.subrange(k as int, s.len() as int) =~= s.subrange(
                s.len() - (s.len() - k),
                s.len() as int,
            ));
        },
        Parser::Literal(lit) => {
            if lit@.len() <= s.len() {
                assert(s.subrange(lit@.len() as int, s.len() as int) =~= s.subrange(
                    s.len() - (s.len() - lit@.len()),
                    s.len() as int,
                ));
            }
        },
        Parser::Char(c) => {
            if s.len() > 0 {
                assert(s.drop_first() =~= s.subrange(1, s.len() as int));
            }
        },
        Parser::Sequence(ps) => {
            lemma_sequence_remainder(ps, ps.len() as nat, s);
        },
        Parser::Choice(ps) => {
            lemma_choice_remainder(ps, ps.len() as nat, s);
        },
    }
}

proof fn lemma_sequence_remainder(ps: Vec<Parser>, n: nat, s: Seq<char>)
    ensures
        is_suffix(sequence_prefix(ps, n, s).1, s),
        sequence_prefix(ps, n, s).0 is Err ==> sequence_prefix(ps, n, s).1 == s,
    decreases ps, n,
{
    lemma_suffix_refl(s);
    if n > 0 && n <= ps.len() {
        lemma_sequence_remainder(ps, (n - 1) as nat, s);
        let prev = sequence_prefix(ps, (n - 1) as nat, s);
        if prev.0 is Ok {
            lemma_remainder_is_suffix(ps[n - 1], prev.1);
            let step = parse_outcome(ps[n - 1], prev.1);
            if step.0 is Ok {
                lemma_suffix_trans(step.1, prev.1, s);
            }
        }
    }
}

proof fn lemma_choice_remainder(ps: Vec<Parser>, n: nat, s: Seq<char>)
    ensures
        choice_prefix(ps, n, s) is Some ==> is_suffix((choice_prefix(ps, n, s)->0).1, s),
        choice_prefix(ps, n, s) is Some && (choice_prefix(ps, n, s)->0).0 is Err ==> (
        choice_prefix(ps, n, s)->0).1 == s,
    decreases ps, n,
{
    if n > 0 && n <= ps.len() {
        lemma_choice_remainder(ps, (n - 1) as nat, s);
        lemma_remainder_is_suffix(ps[n - 1], s);
    }
}

/// The character parser for `c` succeeds, with value `c` and the input less
/// its first character, exactly when the input starts with `c`; otherwise it
/// fails and leaves the input as it was.
pub proof fn lemma_char_parser(c: char, s: Seq<char>)
    ensures
        s.len() > 0 && s[0] == c ==> parse_outcome(Parser::Char(c), s) == (
        Ok::<Val, Seq<char>>(Val::Char(c)), s.subrange(1, s.len() as int)),
        !(s.len() > 0 && s[0] == c) ==> parse_outcome(Parser::Char(c), s).0 is Err
            && parse_outcome(Parser::Char(c), s).1 == s,
{
    if s.len() > 0 {
        assert(s.drop_first() =~= s.subrange(1, s.len() as int));
    }
}

/// Applying one parser twice to one input gives the same outcome both times.
pub proof fn lemma_parse_repeatable(
    p: Parser,
    s: &str,
    first: (Result<Value, String>, &str),
    second: (Result<Value, String>, &str),
)
    requires
        outcome_of(first) == parse_outcome(p, s@),
        outcome_of(second) == parse_outcome(p, s@),
    ensures
        outcome_of(first) == outcome_of(second),
{
}

/// A sequence of no parsers succeeds with no values and consumes nothing.
pub proof fn lemma_empty_sequence(ps: Vec<Parser>, s: Seq<char>)
    requires
        ps.len() == 0,
    ensures
        parse_outcome(Parser::Sequence(ps), s) == (Ok::<Val, Seq<char>>(Val::List(seq![])), s),
{
}

} // verus!
