//! The condition tree: the boolean predicate language over label pairs that
//! selects series for a query.

use vstd::prelude::*;

use crate::keys::{key_get, Key, KeyView};

verus! {

/// Whether `pattern` is a valid regular expression: a function of the
/// pattern text alone.
pub uninterp spec fn regex_ok(pattern: Seq<char>) -> bool;

/// Whether the regular expression `pattern` matches somewhere in `text`: a
/// function of the two texts alone.
pub uninterp spec fn regex_match_of(pattern: Seq<char>, text: Seq<char>) -> bool;

/// Relies on regex::Regex::new of the regex crate: whether a pattern text
/// compiles into a regular expression depends on the pattern alone.
#[verifier::external_body]
fn regex_compiles(pattern: &String) -> (r: bool)
    ensures
        r == regex_ok(pattern@),
{
    regex::Regex::new(pattern.as_str()).is_ok()
}

/// Relies on regex::Regex::is_match of the regex crate: whether a pattern
/// matches a haystack depends on the pattern and haystack texts alone.
#[verifier::external_body]
fn regex_matches(pattern: &String, text: &str) -> (r: bool)
    requires
        regex_ok(pattern@),
    ensures
        r == regex_match_of(pattern@, text@),
{
    match regex::Regex::new(pattern.as_str()) {
        Ok(re) => re.is_match(text),
        Err(_) => false,
    }
}

/// The model of a condition: the same tree over character sequences.
pub enum CondV {
    Eq(Seq<char>, Seq<char>),
    NotEq(Seq<char>, Seq<char>),
    RegexLike(Seq<char>, Seq<char>),
    And(Box<CondV>, Box<CondV>),
    Or(Box<CondV>, Box<CondV>),
    Not(Box<CondV>),
    Has(Seq<char>),
}

/// A boolean predicate over a key's label pairs. `Eq`/`NotEq` compare the
/// value of the named label, `RegexLike` matches the named label's value (an
/// absent label is matched as the empty string — deliberately permissive),
/// `Has` tests mere presence, and `And`/`Or`/`Not` compose structurally. A
/// `RegexLike` holds its pattern as literal source text.
#[derive(Debug)]
pub enum Condition {
    Eq(String, String),
    NotEq(String, String),
    RegexLike(String, String),
    And(Box<Condition>, Box<Condition>),
    Or(Box<Condition>, Box<Condition>),
    Not(Box<Condition>),
    Has(String),
}

/// The model of an executable condition.
pub open spec fn cond_view(c: Condition) -> CondV
    decreases c,
{
    match c {
        Condition::Eq(n, v) => CondV::Eq(n@, v@),
        Condition::NotEq(n, v) => CondV::NotEq(n@, v@),
        Condition::RegexLike(n, p) => CondV::RegexLike(n@, p@),
        Condition::And(a, b) => CondV::And(Box::new(cond_view(*a)), Box::new(cond_view(*b))),
        Condition::Or(a, b) => CondV::Or(Box::new(cond_view(*a)), Box::new(cond_view(*b))),
        Condition::Not(a) => CondV::Not(Box::new(cond_view(*a))),
        Condition::Has(n) => CondV::Has(n@),
    }
}

impl View for Condition {
    type V = CondV;

    open spec fn view(&self) -> CondV {
        cond_view(*self)
    }
}

/// Every regular expression in the condition compiles.
pub open spec fn cond_ok(c: CondV) -> bool
    decreases c,
{
    match c {
        CondV::RegexLike(_, pat) => regex_ok(pat),
        CondV::And(a, b) => cond_ok(*a) && cond_ok(*b),
        CondV::Or(a, b) => cond_ok(*a) && cond_ok(*b),
        CondV::Not(a) => cond_ok(*a),
        _ => true,
    }
}

/// Structural evaluation of a condition against a key's label pairs.
pub open spec fn cond_matches(key: KeyView, c: CondV) -> bool
    decreases c,
{
    match c {
        CondV::Eq(name, value) => key_get(key, name) == Some(value),
        CondV::NotEq(name, value) => key_get(key, name) != Some(value),
        CondV::RegexLike(name, pat) => regex_match_of(
            pat,
            match key_get(key, name) {
                Some(t) => t,
                None => Seq::empty(),
            },
        ),
        CondV::And(a, b) => cond_matches(key, *a) && cond_matches(key, *b),
        CondV::Or(a, b) => cond_matches(key, *a) || cond_matches(key, *b),
        CondV::Not(a) => !cond_matches(key, *a),
        CondV::Has(name) => key_get(key, name) is Some,
    }
}

/// Evaluates the condition against a key.
pub fn match_cond(key: &Key, cond: &Condition) -> (r: bool)
    requires
        cond_ok(cond@),
    ensures
        r == cond_matches(key@, cond@),
    decreases cond,
{
    match cond {
        Condition::Eq(name, value) => {
            match key.get(name) {
                Some(v) => *v == *value,
                None => false,
            }
        },
        Condition::NotEq(name, value) => {
            match key.get(name) {
                Some(v) => !(*v == *value),
                None => true,
            }
        },
        Condition::RegexLike(name, pat) => {
            match key.get(name) {
                Some(t) => regex_matches(pat, t.as_str()),
                None => {
                    proof {
                        reveal_strlit("");
                        assert(""@ =~= Seq::<char>::empty());
                    }
                    regex_matches(pat, "")
                },
            }
        },
        Condition::And(a, b) => {
            let ra = match_cond(key, a);
            let rb = match_cond(key, b);
            ra && rb
        },
        Condition::Or(a, b) => {
            let ra = match_cond(key, a);
            let rb = match_cond(key, b);
            ra || rb
        },
        Condition::Not(a) => !match_cond(key, a),
        Condition::Has(name) => {
            match key.get(name) {
                Some(_) => true,
                None => false,
            }
        },
    }
}

/// Checks that every regular expression in the condition compiles.
pub fn check_condition(cond: &Condition) -> (r: bool)
    ensures
        r == cond_ok(cond@),
    decreases cond,
{
    match cond {
        Condition::RegexLike(_, pat) => regex_compiles(pat),
        Condition::And(a, b) => {
            let ra = check_condition(a);
            let rb = check_condition(b);
            ra && rb
        },
        Condition::Or(a, b) => {
            let ra = check_condition(a);
            let rb = check_condition(b);
            ra && rb
        },
        Condition::Not(a) => check_condition(a),
        _ => true,
    }
}

/// Evaluates the condition against a key after checking that every regular
/// expression in it compiles; `None` exactly when one does not.
pub fn match_cond_checked(key: &Key, cond: &Condition) -> (r: Option<bool>)
    ensures
        match r {
            Some(b) => cond_ok(cond@) && b == cond_matches(key@, cond@),
            None => !cond_ok(cond@),
        },
{
    if check_condition(cond) {
        Some(match_cond(key, cond))
    } else {
        None
    }
}

/// Law: a key matches `Not(Has(name))` exactly when the label `name` is
/// absent from it.
pub proof fn lemma_not_has(key: KeyView, c: CondV, name: Seq<char>)
    requires
        c == CondV::Not(Box::new(CondV::Has(name))),
    ensures
        cond_matches(key, c) <==> key_get(key, name) is None,
{
    assert(cond_matches(key, c) == !cond_matches(key, CondV::Has(name)));
    assert(cond_matches(key, CondV::Has(name)) == (key_get(key, name) is Some));
}

/// Law: `And` and `Or` match by the boolean truth tables over their
/// sub-predicates, and `Not` negates.
pub proof fn lemma_truth_tables(key: KeyView, a: CondV, b: CondV)
    ensures
        cond_matches(key, CondV::And(Box::new(a), Box::new(b))) <==> (cond_matches(key, a)
            && cond_matches(key, b)),
        cond_matches(key, CondV::Or(Box::new(a), Box::new(b))) <==> (cond_matches(key, a)
            || cond_matches(key, b)),
        cond_matches(key, CondV::Not(Box::new(a))) <==> !cond_matches(key, a),
{
}

/// Law: `And` and `Or` are associative under matching: grouping three
/// sub-predicates either way selects the same keys.
pub proof fn lemma_and_or_associative(key: KeyView, a: CondV, b: CondV, c: CondV)
    ensures
        cond_matches(
            key,
            CondV::And(Box::new(a), Box::new(CondV::And(Box::new(b), Box::new(c)))),
        ) == cond_matches(
            key,
            CondV::And(Box::new(CondV::And(Box::new(a), Box::new(b))), Box::new(c)),
        ),
        cond_matches(
            key,
            CondV::Or(Box::new(a), Box::new(CondV::Or(Box::new(b), Box::new(c)))),
        ) == cond_matches(
            key,
            CondV::Or(Box::new(CondV::Or(Box::new(a), Box::new(b))), Box::new(c)),
        ),
{
    let and_bc = CondV::And(Box::new(b), Box::new(c));
    let and_ab = CondV::And(Box::new(a), Box::new(b));
    assert(cond_matches(key, CondV::And(Box::new(a), Box::new(and_bc))) == (cond_matches(key, a)
        && cond_matches(key, and_bc)));
    assert(cond_matches(key, and_bc) == (cond_matches(key, b) && cond_matches(key, c)));
    assert(cond_matches(key, CondV::And(Box::new(and_ab), Box::new(c))) == (cond_matches(
        key,
        and_ab,
    ) && cond_matches(key, c)));
    assert(cond_matches(key, and_ab) == (cond_matches(key, a) && cond_matches(key, b)));
    let or_bc = CondV::Or(Box::new(b), Box::new(c));
    let or_ab = CondV::Or(Box::new(a), Box::new(b));
    assert(cond_matches(key, CondV::Or(Box::new(a), Box::new(or_bc))) == (cond_matches(key, a)
        || cond_matches(key, or_bc)));
    assert(cond_matches(key, or_bc) == (cond_matches(key, b) || cond_matches(key, c)));
    assert(cond_matches(key, CondV::Or(Box::new(or_ab), Box::new(c))) == (cond_matches(key, or_ab)
        || cond_matches(key, c)));
    assert(cond_matches(key, or_ab) == (cond_matches(key, a) || cond_matches(key, b)));
}

} // verus!

verus! {

/// The serialized form of a condition: a tag-prefixed token stream with the
/// children flattened in prefix order.
pub open spec fn enc_cond(c: CondV) -> Seq<Seq<char>>
    decreases c,
{
    match c {
        CondV::Eq(n, v) => seq!["eq"@, n, v],
        CondV::NotEq(n, v) => seq!["not-eq"@, n, v],
        CondV::RegexLike(n, p) => seq!["regex-like"@, n, p],
        CondV::And(a, b) => seq!["and"@] + enc_cond(*a) + enc_cond(*b),
        CondV::Or(a, b) => seq!["or"@] + enc_cond(*a) + enc_cond(*b),
        CondV::Not(a) => seq!["not"@] + enc_cond(*a),
        CondV::Has(n) => seq!["has"@, n],
    }
}

/// The views of a token list.
pub open spec fn token_views(v: Seq<String>) -> Seq<Seq<char>> {
    v.map_values(|s: String| s@)
}

/// Serializes a condition onto a token stream.
pub fn encode_condition(c: &Condition, out: &mut Vec<String>)
    ensures
        token_views(final(out)@) == token_views(old(out)@) + enc_cond(c@),
    decreases c,
{
    match c {
        Condition::Eq(n, v) => {
            out.push("eq".to_owned());
            out.push(n.clone());
            out.push(v.clone());
            proof {
                assert(token_views(out@) =~= token_views(old(out)@) + enc_cond(c@));
            }
        },
        Condition::NotEq(n, v) => {
            out.push("not-eq".to_owned());
            out.push(n.clone());
            out.push(v.clone());
            proof {
                assert(token_views(out@) =~= token_views(old(out)@) + enc_cond(c@));
            }
        },
        Condition::RegexLike(n, p) => {
            out.push("regex-like".to_owned());
            out.push(n.clone());
            out.push(p.clone());
            proof {
                assert(token_views(out@) =~= token_views(old(out)@) + enc_cond(c@));
            }
        },
        Condition::And(a, b) => {
            out.push("and".to_owned());
            let ghost mid0 = out@;
            proof {
                assert(token_views(mid0) =~= token_views(old(out)@) + seq!["and"@]);
            }
            encode_condition(a, out);
            let ghost mid1 = out@;
            encode_condition(b, out);
            proof {
                assert(token_views(out@) =~= token_views(old(out)@) + enc_cond(c@)) by {
                    assert(enc_cond(c@) == seq!["and"@] + enc_cond(cond_view(**a)) + enc_cond(
                        cond_view(**b),
                    ));
                    assert(token_views(mid1) == token_views(mid0) + enc_cond(cond_view(**a)));
                    assert(token_views(out@) == token_views(mid1) + enc_cond(cond_view(**b)));
                }
            }
        },
        Condition::Or(a, b) => {
            out.push("or".to_owned());
            let ghost mid0 = out@;
            proof {
                assert(token_views(mid0) =~= token_views(old(out)@) + seq!["or"@]);
            }
            encode_condition(a, out);
            let ghost mid1 = out@;
            encode_condition(b, out);
            proof {
                assert(token_views(out@) =~= token_views(old(out)@) + enc_cond(c@)) by {
                    assert(enc_cond(c@) == seq!["or"@] + enc_cond(cond_view(**a)) + enc_cond(
                        cond_view(**b),
                    ));
                    assert(token_views(mid1) == token_views(mid0) + enc_cond(cond_view(**a)));
                    assert(token_views(out@) == token_views(mid1) + enc_cond(cond_view(**b)));
                }
            }
        },
        Condition::Not(a) => {
            out.push("not".to_owned());
            let ghost mid0 = out@;
            proof {
                assert(token_views(mid0) =~= token_views(old(out)@) + seq!["not"@]);
            }
            encode_condition(a, out);
            proof {
                assert(token_views(out@) =~= token_views(old(out)@) + enc_cond(c@)) by {
                    assert(enc_cond(c@) == seq!["not"@] + enc_cond(cond_view(**a)));
                    assert(token_views(out@) == token_views(mid0) + enc_cond(cond_view(**a)));
                }
            }
        },
        Condition::Has(n) => {
            out.push("has".to_owned());
            out.push(n.clone());
            proof {
                assert(token_views(out@) =~= token_views(old(out)@) + enc_cond(c@));
            }
        },
    }
}

/// Tokens `part` stand at `pos` in `ts`.
pub open spec fn tokens_at(ts: Seq<Seq<char>>, pos: int, part: Seq<Seq<char>>) -> bool {
    &&& 0 <= pos
    &&& pos + part.len() <= ts.len()
    &&& forall|k: int| 0 <= k < part.len() ==> ts[pos + k] == #[trigger] part[k]
}

proof fn lemma_tokens_at_split(ts: Seq<Seq<char>>, pos: int, a: Seq<Seq<char>>, b: Seq<Seq<char>>)
    requires
        tokens_at(ts, pos, a + b),
    ensures
        tokens_at(ts, pos, a),
        tokens_at(ts, pos + a.len(), b),
{
    assert forall|k: int| 0 <= k < a.len() implies ts[pos + k] == #[trigger] a[k] by {
        assert((a + b)[k] == a[k]);
        assert(ts[pos + k] == (a + b)[k]);
    }
    assert forall|k: int| 0 <= k < b.len() implies ts[pos + a.len() + k] == #[trigger] b[k] by {
        assert((a + b)[a.len() + k] == b[k]);
        assert(ts[pos + (a.len() + k)] == (a + b)[a.len() + k]);
    }
}

proof fn lemma_enc_cond_head(c: CondV)
    ensures
        enc_cond(c).len() >= 1,
        match c {
            CondV::Eq(_, _) => enc_cond(c)[0] == "eq"@ && enc_cond(c).len() == 3,
            CondV::NotEq(_, _) => enc_cond(c)[0] == "not-eq"@ && enc_cond(c).len() == 3,
            CondV::RegexLike(_, _) => enc_cond(c)[0] == "regex-like"@ && enc_cond(c).len() == 3,
            CondV::And(_, _) => enc_cond(c)[0] == "and"@,
            CondV::Or(_, _) => enc_cond(c)[0] == "or"@,
            CondV::Not(_) => enc_cond(c)[0] == "not"@,
            CondV::Has(_) => enc_cond(c)[0] == "has"@ && enc_cond(c).len() == 2,
        },
{
    match c {
        CondV::Eq(_, _) => {},
        CondV::NotEq(_, _) => {},
        CondV::RegexLike(_, _) => {},
        CondV::And(a, b) => {
            assert(enc_cond(c) == seq!["and"@] + enc_cond(*a) + enc_cond(*b));
            assert(enc_cond(c)[0] == "and"@);
        },
        CondV::Or(a, b) => {
            assert(enc_cond(c) == seq!["or"@] + enc_cond(*a) + enc_cond(*b));
            assert(enc_cond(c)[0] == "or"@);
        },
        CondV::Not(a) => {
            assert(enc_cond(c) == seq!["not"@] + enc_cond(*a));
            assert(enc_cond(c)[0] == "not"@);
        },
        CondV::Has(_) => {},
    }
}

proof fn lemma_tags_distinct()
    ensures
        "eq"@ != "not-eq"@,
        "eq"@ != "regex-like"@,
        "eq"@ != "and"@,
        "eq"@ != "or"@,
        "eq"@ != "not"@,
        "eq"@ != "has"@,
        "not-eq"@ != "regex-like"@,
        "not-eq"@ != "and"@,
        "not-eq"@ != "or"@,
        "not-eq"@ != "not"@,
        "not-eq"@ != "has"@,
        "regex-like"@ != "and"@,
        "regex-like"@ != "or"@,
        "regex-like"@ != "not"@,
        "regex-like"@ != "has"@,
        "and"@ != "or"@,
        "and"@ != "not"@,
        "and"@ != "has"@,
        "or"@ != "not"@,
        "or"@ != "has"@,
        "not"@ != "has"@,
{
    reveal_strlit("eq");
    reveal_strlit("not-eq");
    reveal_strlit("regex-like");
    reveal_strlit("and");
    reveal_strlit("or");
    reveal_strlit("not");
    reveal_strlit("has");
    assert("eq"@.len() == 2 && "or"@.len() == 2 && "and"@.len() == 3 && "not"@.len() == 3
        && "has"@.len() == 3 && "not-eq"@.len() == 6 && "regex-like"@.len() == 10);
    assert("eq"@[0] == 'e' && "or"@[0] == 'o' && "and"@[0] == 'a' && "not"@[0] == 'n' && "has"@[0]
        == 'h');
}


proof fn lemma_head_tag(tv: Seq<Seq<char>>, pos: int, c: CondV)
    requires
        tokens_at(tv, pos, enc_cond(c)),
    ensures
        enc_cond(c).len() >= 1,
        pos + enc_cond(c).len() <= tv.len(),
        tv[pos] == enc_cond(c)[0],
        match c {
            CondV::Eq(_, _) => tv[pos] == "eq"@ && enc_cond(c).len() == 3,
            CondV::NotEq(_, _) => tv[pos] == "not-eq"@ && enc_cond(c).len() == 3,
            CondV::RegexLike(_, _) => tv[pos] == "regex-like"@ && enc_cond(c).len() == 3,
            CondV::And(_, _) => tv[pos] == "and"@,
            CondV::Or(_, _) => tv[pos] == "or"@,
            CondV::Not(_) => tv[pos] == "not"@,
            CondV::Has(_) => tv[pos] == "has"@ && enc_cond(c).len() == 2,
        },
{
    lemma_enc_cond_head(c);
    assert(tv[pos + 0] == enc_cond(c)[0]);
}

/// Parses one condition from a token stream, starting at `pos`: a bad tag,
/// a truncated stream, or a pattern that does not compile is a bad request.
/// A parsed condition is valid (every pattern compiles) and serializes back
/// to exactly the tokens consumed; and whenever a valid condition's
/// serialization stands at `pos`, the parse returns exactly that condition,
/// so decoding is a left inverse of encoding.
pub fn parse_condition(tokens: &Vec<String>, pos: usize) -> (r: Result<
    (Condition, usize),
    crate::query::Error,
>)
    ensures
        r matches Ok((c, p)) ==> {
            &&& pos < p <= tokens@.len()
            &&& cond_ok(c@)
            &&& enc_cond(c@) == token_views(tokens@).subrange(pos as int, p as int)
        },
        forall|c: CondV|
            (cond_ok(c) && tokens_at(token_views(tokens@), pos as int, #[trigger] enc_cond(c)))
                ==> (r matches Ok((c2, p)) && c2@ == c && p as int == pos + enc_cond(c).len()),
    decreases tokens@.len() - pos,
{
    proof {
        reveal_strlit("eq");
        reveal_strlit("not-eq");
        reveal_strlit("regex-like");
        reveal_strlit("and");
        reveal_strlit("or");
        reveal_strlit("not");
        reveal_strlit("has");
    }
    let ghost tv = token_views(tokens@);
    if pos >= tokens.len() {
        proof {
            assert forall|c: CondV| cond_ok(c) && tokens_at(tv, pos as int, #[trigger] enc_cond(c))
                implies false by {
                lemma_tags_distinct();
                lemma_head_tag(tv, pos as int, c);
            }
        }
        return Err(crate::query::Error("condition ends too soon"));
    }
    let tag = &tokens[pos];
    proof {
        assert(tv[pos as int] == tokens@[pos as int]@);
    }
    if *tag == "eq".to_owned() {
        proof {
            assert forall|c: CondV| cond_ok(c) && tokens_at(tv, pos as int, #[trigger] enc_cond(c))
                implies c matches CondV::Eq(_, _) by {
                lemma_tags_distinct();
                lemma_head_tag(tv, pos as int, c);
            }
        }
        if tokens.len() - pos < 3 {
            proof {
                assert forall|c: CondV| cond_ok(c) && tokens_at(
                    tv,
                    pos as int,
                    #[trigger] enc_cond(c),
                ) implies false by {
                    lemma_tags_distinct();
                lemma_head_tag(tv, pos as int, c);
                }
            }
            return Err(crate::query::Error("condition ends too soon"));
        }
        let c = Condition::Eq(tokens[pos + 1].clone(), tokens[pos + 2].clone());
        proof {
            assert(enc_cond(c@) =~= tv.subrange(pos as int, pos + 3));
            assert forall|cc: CondV| cond_ok(cc) && tokens_at(
                tv,
                pos as int,
                #[trigger] enc_cond(cc),
            ) implies cc == c@ by {
                lemma_tags_distinct();
                lemma_head_tag(tv, pos as int, cc);
                match cc {
                    CondV::Eq(n, v) => {
                        assert(enc_cond(cc)[1] == n && enc_cond(cc)[2] == v);
                        assert(n == tv[pos + 1] && v == tv[pos + 2]);
                    },
                    _ => {},
                }
            }
        }
        Ok((c, pos + 3))
    } else if *tag == "not-eq".to_owned() {
        proof {
            assert forall|c: CondV| cond_ok(c) && tokens_at(tv, pos as int, #[trigger] enc_cond(c))
                implies c matches CondV::NotEq(_, _) by {
                lemma_tags_distinct();
                lemma_head_tag(tv, pos as int, c);
            }
        }
        if tokens.len() - pos < 3 {
            proof {
                assert forall|c: CondV| cond_ok(c) && tokens_at(
                    tv,
                    pos as int,
                    #[trigger] enc_cond(c),
                ) implies false by {
                    lemma_tags_distinct();
                lemma_head_tag(tv, pos as int, c);
                }
            }
            return Err(crate::query::Error("condition ends too soon"));
        }
        let c = Condition::NotEq(tokens[pos + 1].clone(), tokens[pos + 2].clone());
        proof {
            assert(enc_cond(c@) =~= tv.subrange(pos as int, pos + 3));
            assert forall|cc: CondV| cond_ok(cc) && tokens_at(
                tv,
                pos as int,
                #[trigger] enc_cond(cc),
            ) implies cc == c@ by {
                lemma_tags_distinct();
                lemma_head_tag(tv, pos as int, cc);
                match cc {
                    CondV::NotEq(n, v) => {
                        assert(enc_cond(cc)[1] == n && enc_cond(cc)[2] == v);
                        assert(n == tv[pos + 1] && v == tv[pos + 2]);
                    },
                    _ => {},
                }
            }
        }
        Ok((c, pos + 3))
    } else if *tag == "regex-like".to_owned() {
        proof {
            assert forall|c: CondV| cond_ok(c) && tokens_at(tv, pos as int, #[trigger] enc_cond(c))
                implies c matches CondV::RegexLike(_, _) by {
                lemma_tags_distinct();
                lemma_head_tag(tv, pos as int, c);
            }
        }
        if tokens.len() - pos < 3 {
            proof {
                assert forall|c: CondV| cond_ok(c) && tokens_at(
                    tv,
                    pos as int,
                    #[trigger] enc_cond(c),
                ) implies false by {
                    lemma_tags_distinct();
                lemma_head_tag(tv, pos as int, c);
                }
            }
            return Err(crate::query::Error("condition ends too soon"));
        }
        let c = Condition::RegexLike(tokens[pos + 1].clone(), tokens[pos + 2].clone());
        if !check_condition(&c) {
            proof {
                assert forall|cc: CondV| cond_ok(cc) && tokens_at(
                    tv,
                    pos as int,
                    #[trigger] enc_cond(cc),
                ) implies false by {
                    lemma_tags_distinct();
                lemma_head_tag(tv, pos as int, cc);
                    match cc {
                        CondV::RegexLike(n, pat) => {
                            assert(enc_cond(cc)[2] == pat);
                            assert(pat == tv[pos + 2]);
                            assert(!regex_ok(pat));
                        },
                        _ => {},
                    }
                }
            }
            return Err(crate::query::Error("error compiling regex"));
        }
        proof {
            assert(enc_cond(c@) =~= tv.subrange(pos as int, pos + 3));
            assert forall|cc: CondV| cond_ok(cc) && tokens_at(
                tv,
                pos as int,
                #[trigger] enc_cond(cc),
            ) implies cc == c@ by {
                lemma_tags_distinct();
                lemma_head_tag(tv, pos as int, cc);
                match cc {
                    CondV::RegexLike(n, v) => {
                        assert(enc_cond(cc)[1] == n && enc_cond(cc)[2] == v);
                        assert(n == tv[pos + 1] && v == tv[pos + 2]);
                    },
                    _ => {},
                }
            }
        }
        Ok((c, pos + 3))
    } else if *tag == "and".to_owned() {
        parse_two(tokens, pos, true)
    } else if *tag == "or".to_owned() {
        parse_two(tokens, pos, false)
    } else if *tag == "not".to_owned() {
        proof {
            assert forall|c: CondV| cond_ok(c) && tokens_at(tv, pos as int, #[trigger] enc_cond(c))
                implies (c matches CondV::Not(ia) && tokens_at(tv, pos + 1, enc_cond(*ia))
                && cond_ok(*ia)) by {
                lemma_tags_distinct();
                lemma_head_tag(tv, pos as int, c);
                match c {
                    CondV::Not(ia) => {
                        assert(enc_cond(c) == seq!["not"@] + enc_cond(*ia));
                        lemma_tokens_at_split(tv, pos as int, seq!["not"@], enc_cond(*ia));
                    },
                    _ => {},
                }
            }
        }
        let (a, p1) = match parse_condition(tokens, pos + 1) {
            Ok(x) => x,
            Err(e) => {
                proof {
                    assert forall|c: CondV| cond_ok(c) && tokens_at(
                        tv,
                        pos as int,
                        #[trigger] enc_cond(c),
                    ) implies false by {
                        match c {
                            CondV::Not(ia) => {
                                assert(tokens_at(tv, pos + 1, enc_cond(*ia)));
                            },
                            _ => {},
                        }
                    }
                }
                return Err(e);
            },
        };
        let c = Condition::Not(Box::new(a));
        proof {
            assert(enc_cond(c@) =~= tv.subrange(pos as int, p1 as int)) by {
                assert(enc_cond(c@) == seq!["not"@] + enc_cond(a@));
                assert(tv[pos as int] == "not"@);
            }
            assert forall|cc: CondV| cond_ok(cc) && tokens_at(
                tv,
                pos as int,
                #[trigger] enc_cond(cc),
            ) implies cc == c@ && p1 as int == pos + enc_cond(cc).len() by {
                match cc {
                    CondV::Not(ia) => {
                        assert(tokens_at(tv, pos + 1, enc_cond(*ia)));
                        assert(a@ == *ia && p1 as int == pos + 1 + enc_cond(*ia).len());
                        assert(cc == CondV::Not(Box::new(*ia)));
                        assert(enc_cond(cc) == seq!["not"@] + enc_cond(*ia));
                    },
                    _ => {},
                }
            }
        }
        Ok((c, p1))
    } else if *tag == "has".to_owned() {
        proof {
            assert forall|c: CondV| cond_ok(c) && tokens_at(tv, pos as int, #[trigger] enc_cond(c))
                implies c matches CondV::Has(_) by {
                lemma_tags_distinct();
                lemma_head_tag(tv, pos as int, c);
            }
        }
        if tokens.len() - pos < 2 {
            proof {
                assert forall|c: CondV| cond_ok(c) && tokens_at(
                    tv,
                    pos as int,
                    #[trigger] enc_cond(c),
                ) implies false by {
                    lemma_tags_distinct();
                lemma_head_tag(tv, pos as int, c);
                }
            }
            return Err(crate::query::Error("condition ends too soon"));
        }
        let c = Condition::Has(tokens[pos + 1].clone());
        proof {
            assert(enc_cond(c@) =~= tv.subrange(pos as int, pos + 2));
            assert forall|cc: CondV| cond_ok(cc) && tokens_at(
                tv,
                pos as int,
                #[trigger] enc_cond(cc),
            ) implies cc == c@ by {
                lemma_tags_distinct();
                lemma_head_tag(tv, pos as int, cc);
                match cc {
                    CondV::Has(n) => {
                        assert(enc_cond(cc)[1] == n);
                        assert(n == tv[pos + 1]);
                    },
                    _ => {},
                }
            }
        }
        Ok((c, pos + 2))
    } else {
        proof {
            assert forall|c: CondV| cond_ok(c) && tokens_at(tv, pos as int, #[trigger] enc_cond(c))
                implies false by {
                lemma_tags_distinct();
                lemma_head_tag(tv, pos as int, c);
            }
        }
        Err(crate::query::Error("bad condition type"))
    }
}

/// Parses the two children of an `and` / `or` node standing at `pos`.
fn parse_two(tokens: &Vec<String>, pos: usize, conj: bool) -> (r: Result<
    (Condition, usize),
    crate::query::Error,
>)
    requires
        pos < tokens@.len(),
        conj ==> token_views(tokens@)[pos as int] == "and"@,
        !conj ==> token_views(tokens@)[pos as int] == "or"@,
    ensures
        r matches Ok((c, p)) ==> {
            &&& pos < p <= tokens@.len()
            &&& cond_ok(c@)
            &&& enc_cond(c@) == token_views(tokens@).subrange(pos as int, p as int)
        },
        forall|c: CondV|
            (cond_ok(c) && tokens_at(token_views(tokens@), pos as int, #[trigger] enc_cond(c)))
                ==> (r matches Ok((c2, p)) && c2@ == c && p as int == pos + enc_cond(c).len()),
    decreases tokens@.len() - pos, 1int,
{
    proof {
        reveal_strlit("eq");
        reveal_strlit("not-eq");
        reveal_strlit("regex-like");
        reveal_strlit("and");
        reveal_strlit("or");
        reveal_strlit("not");
        reveal_strlit("has");
    }
    let ghost tv = token_views(tokens@);
    let n = tokens.len();
    proof {
        assert(pos < n);
    }
    proof {
        assert forall|c: CondV| cond_ok(c) && tokens_at(tv, pos as int, #[trigger] enc_cond(c))
            implies exists|ia: Box<CondV>, ib: Box<CondV>|
            {
                &&& c == if conj {
                    CondV::And(ia, ib)
                } else {
                    CondV::Or(ia, ib)
                }
                &&& #[trigger] tokens_at(tv, pos + 1, enc_cond(*ia))
                &&& #[trigger] tokens_at(tv, pos + 1 + enc_cond(*ia).len(), enc_cond(*ib))
                &&& cond_ok(*ia) && cond_ok(*ib)
            } by {
            lemma_tags_distinct();
                lemma_head_tag(tv, pos as int, c);
            match c {
                CondV::And(ia, ib) => {
                    assert(enc_cond(c) == seq!["and"@] + enc_cond(*ia) + enc_cond(*ib));
                    assert(enc_cond(c) =~= seq!["and"@] + (enc_cond(*ia) + enc_cond(*ib)));
                    lemma_tokens_at_split(
                        tv,
                        pos as int,
                        seq!["and"@],
                        enc_cond(*ia) + enc_cond(*ib),
                    );
                    lemma_tokens_at_split(tv, pos + 1, enc_cond(*ia), enc_cond(*ib));
                },
                CondV::Or(ia, ib) => {
                    assert(enc_cond(c) == seq!["or"@] + enc_cond(*ia) + enc_cond(*ib));
                    assert(enc_cond(c) =~= seq!["or"@] + (enc_cond(*ia) + enc_cond(*ib)));
                    lemma_tokens_at_split(
                        tv,
                        pos as int,
                        seq!["or"@],
                        enc_cond(*ia) + enc_cond(*ib),
                    );
                    lemma_tokens_at_split(tv, pos + 1, enc_cond(*ia), enc_cond(*ib));
                },
                _ => {},
            }
        }
    }
    let (a, p1) = match parse_condition(tokens, pos + 1) {
        Ok(x) => x,
        Err(e) => {
            proof {
                assert forall|c: CondV| cond_ok(c) && tokens_at(
                    tv,
                    pos as int,
                    #[trigger] enc_cond(c),
                ) implies false by {
                    let (ia, ib) = choose|ia: Box<CondV>, ib: Box<CondV>|
                        {
                            &&& c == if conj {
                                CondV::And(ia, ib)
                            } else {
                                CondV::Or(ia, ib)
                            }
                            &&& #[trigger] tokens_at(tv, pos + 1, enc_cond(*ia))
                            &&& #[trigger] tokens_at(tv, pos + 1 + enc_cond(*ia).len(), enc_cond(*ib))
                            &&& cond_ok(*ia) && cond_ok(*ib)
                        };
                    assert(tokens_at(tv, pos + 1, enc_cond(*ia)));
                }
            }
            return Err(e);
        },
    };
    let (b, p2) = match parse_condition(tokens, p1) {
        Ok(x) => x,
        Err(e) => {
            proof {
                assert forall|c: CondV| cond_ok(c) && tokens_at(
                    tv,
                    pos as int,
                    #[trigger] enc_cond(c),
                ) implies false by {
                    let (ia, ib) = choose|ia: Box<CondV>, ib: Box<CondV>|
                        {
                            &&& c == if conj {
                                CondV::And(ia, ib)
                            } else {
                                CondV::Or(ia, ib)
                            }
                            &&& #[trigger] tokens_at(tv, pos + 1, enc_cond(*ia))
                            &&& #[trigger] tokens_at(tv, pos + 1 + enc_cond(*ia).len(), enc_cond(*ib))
                            &&& cond_ok(*ia) && cond_ok(*ib)
                        };
                    assert(a@ == *ia && p1 as int == pos + 1 + enc_cond(*ia).len());
                    assert(tokens_at(tv, p1 as int, enc_cond(*ib)));
                }
            }
            return Err(e);
        },
    };
    let c = if conj {
        Condition::And(Box::new(a), Box::new(b))
    } else {
        Condition::Or(Box::new(a), Box::new(b))
    };
    proof {
        if conj {
            assert(enc_cond(c@) == seq!["and"@] + enc_cond(a@) + enc_cond(b@));
        } else {
            assert(enc_cond(c@) == seq!["or"@] + enc_cond(a@) + enc_cond(b@));
        }
        assert(enc_cond(c@) =~= tv.subrange(pos as int, p2 as int));
        assert forall|cc: CondV| cond_ok(cc) && tokens_at(tv, pos as int, #[trigger] enc_cond(cc))
            implies cc == c@ && p2 as int == pos + enc_cond(cc).len() by {
            let (ia, ib) = choose|ia: Box<CondV>, ib: Box<CondV>|
                {
                    &&& cc == if conj {
                        CondV::And(ia, ib)
                    } else {
                        CondV::Or(ia, ib)
                    }
                    &&& #[trigger] tokens_at(tv, pos + 1, enc_cond(*ia))
                    &&& #[trigger] tokens_at(tv, pos + 1 + enc_cond(*ia).len(), enc_cond(*ib))
                    &&& cond_ok(*ia) && cond_ok(*ib)
                };
            assert(a@ == *ia && p1 as int == pos + 1 + enc_cond(*ia).len());
            assert(b@ == *ib && p2 as int == p1 + enc_cond(*ib).len());
            assert(cc == c@) by {
                assert(Box::new(a@) == ia && Box::new(b@) == ib);
            }
            if conj {
                assert(enc_cond(cc) == seq!["and"@] + enc_cond(*ia) + enc_cond(*ib));
            } else {
                assert(enc_cond(cc) == seq!["or"@] + enc_cond(*ia) + enc_cond(*ib));
            }
        }
    }
    Ok((c, p2))
}

} // verus!
