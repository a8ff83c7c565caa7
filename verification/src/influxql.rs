//! A fragment of the InfluxQL grammar: identifiers, measurement names, LIMIT
//! and OFFSET clauses, and the `SHOW MEASUREMENTS` statement.
//!
//! Parsers work on character positions and return the position after what they
//! consumed. For the value-shaped productions the contract is a round trip:
//! the rendering of the parsed value is exactly the consumed input.

use vstd::prelude::*;

verus! {

/// An InfluxQL identifier: a bare word, or a double-quoted name.
#[derive(Clone, Debug, PartialEq, Eq, Hash)]
pub enum Identifier {
    /// A bare identifier.
    Unquoted(String),
    /// A double-quoted identifier.
    Quoted(String),
}

/// Rendering of an identifier.
pub open spec fn ident_view(id: Identifier) -> Seq<char> {
    match id {
        Identifier::Unquoted(s) => s@,
        Identifier::Quoted(s) => seq!['"'] + s@ + seq!['"'],
    }
}

/// May a bare identifier start with this character?
pub open spec fn is_ident_start(c: char) -> bool {
    ('a' <= c && c <= 'z') || ('A' <= c && c <= 'Z') || c == '_'
}

/// May a bare identifier contain this character after the first?
pub open spec fn is_ident_char(c: char) -> bool {
    is_ident_start(c) || ('0' <= c && c <= '9')
}

/// Is this a decimal digit?
pub open spec fn is_digit(c: char) -> bool {
    '0' <= c && c <= '9'
}

/// Is this InfluxQL whitespace?
pub open spec fn is_space(c: char) -> bool {
    c == ' ' || c == '\t' || c == '\n' || c == '\r'
}

/// End of the whitespace run starting at `p`.
pub open spec fn space_run_end(s: Seq<char>, p: int) -> int
    decreases s.len() - p when 0 <= p <= s.len()
{
    if p >= s.len() || !is_space(s[p]) {
        p
    } else {
        space_run_end(s, p + 1)
    }
}

/// End of the digit run starting at `p`.
pub open spec fn digit_run_end(s: Seq<char>, p: int) -> int
    decreases s.len() - p when 0 <= p <= s.len()
{
    if p >= s.len() || !is_digit(s[p]) {
        p
    } else {
        digit_run_end(s, p + 1)
    }
}

/// End of the bare-identifier run starting at `p`.
pub open spec fn ident_run_end(s: Seq<char>, p: int) -> int
    decreases s.len() - p when 0 <= p <= s.len()
{
    if p >= s.len() || !is_ident_char(s[p]) {
        p
    } else {
        ident_run_end(s, p + 1)
    }
}

/// Position of the first closing quote at or after `j`; one past the end when
/// there is none.
pub open spec fn quote_close(s: Seq<char>, j: int) -> int
    decreases s.len() - j when 0 <= j <= s.len()
{
    if j >= s.len() {
        s.len() as int
    } else if s[j] == '"' {
        j
    } else {
        quote_close(s, j + 1)
    }
}

/// The one identifier parse at `p`, if any: the position after it, and whether
/// it was quoted. A bare identifier is the maximal identifier-character run; a
/// quoted one runs to the first closing quote.
pub open spec fn spec_ident_at(s: Seq<char>, p: int) -> Option<(int, bool)> {
    if p < s.len() && s[p] == '"' {
        if quote_close(s, p + 1) < s.len() {
            Some((quote_close(s, p + 1) + 1, true))
        } else {
            None
        }
    } else if p < s.len() && is_ident_start(s[p]) {
        Some((ident_run_end(s, p), false))
    } else {
        None
    }
}

/// A scan that found the first closing quote lands exactly at `quote_close`.
proof fn lemma_quote_close_here(s: Seq<char>, p: int, q: int)
    requires
        0 <= p <= q <= s.len(),
        forall|j: int| p <= j < q ==> s[j] != '"',
        q == s.len() || s[q] == '"',
    ensures
        quote_close(s, p) == q,
    decreases q - p,
{
    if p < q {
        lemma_quote_close_here(s, p + 1, q);
    }
}

/// A scan that stopped at a non-identifier character (or the end) after
/// identifier characters lands exactly at the identifier run's end.
proof fn lemma_ident_run_end_here(s: Seq<char>, p: int, q: int)
    requires
        0 <= p <= q <= s.len(),
        forall|j: int| p <= j < q ==> is_ident_char(s[j]),
        q == s.len() || !is_ident_char(s[q]),
    ensures
        ident_run_end(s, p) == q,
    decreases q - p,
{
    if p < q {
        lemma_ident_run_end_here(s, p + 1, q);
    }
}

/// Value of the digit run `[p, q)`.
pub open spec fn digits_val(s: Seq<char>, p: int, q: int) -> int
    decreases q - p when p <= q
{
    if q <= p {
        0
    } else {
        digits_val(s, p, q - 1) * 10 + (s[q - 1] as int - '0' as int)
    }
}

/// Skip whitespace from `p`; lands exactly at the end of the whitespace run.
pub fn skip_spaces(s: &str, p: usize) -> (q: usize)
    requires
        p <= s@.len(),
    ensures
        p <= q <= s@.len(),
        q as int == space_run_end(s@, p as int),
{
    let n = s.unicode_len();
    let mut q = p;
    while q < n
        invariant
            p <= q <= n == s@.len(),
            space_run_end(s@, p as int) == space_run_end(s@, q as int),
        decreases n - q,
    {
        let c = s.get_char(q);
        if !(c == ' ' || c == '\t' || c == '\n' || c == '\r') {
            return q;
        }
        q = q + 1;
    }
    q
}

/// Parse an identifier at `p`: a bare word, or a double-quoted name. Exactly
/// the one parse `spec_ident_at` describes comes back — a bare identifier
/// consumes its maximal run, a quoted one runs to the first closing quote —
/// and the rendering of the result is exactly the consumed text.
pub fn parse_identifier(s: &str, p: usize) -> (r: Option<(usize, Identifier)>)
    requires
        p <= s@.len(),
    ensures
        match r {
            Some((q, id)) => {
                &&& p < q <= s@.len()
                &&& ident_view(id) == s@.subrange(p as int, q as int)
                &&& spec_ident_at(s@, p as int) == Some((q as int, id is Quoted))
            },
            None => spec_ident_at(s@, p as int) is None,
        },
{
    let n = s.unicode_len();
    if p >= n {
        return None;
    }
    let c = s.get_char(p);
    if c == '"' {
        // A quoted identifier runs to the closing quote.
        let mut q = p + 1;
        while q < n
            invariant
                p + 1 <= q <= n == s@.len(),
                s@[p as int] == '"',
                forall|j: int| p + 1 <= j < q ==> s@[j] != '"',
            decreases n - q,
        {
            if s.get_char(q) == '"' {
                let inner = s.substring_char(p + 1, q);
                let id = Identifier::Quoted(String::from_str(inner));
                proof {
                    lemma_quote_close_here(s@, p + 1, q as int);
                    assert(s@[p as int] == '"');
                    assert(s@[q as int] == '"');
                    assert(inner@ == s@.subrange(p + 1, q as int));
                    assert(ident_view(id) == seq!['"'] + inner@ + seq!['"']);
                    assert(ident_view(id).len() == s@.subrange(p as int, q + 1).len());
                    assert forall|m: int|
                        0 <= m < ident_view(id).len() implies ident_view(id)[m] == s@.subrange(
                        p as int,
                        q + 1,
                    )[m] by {
                        if m == 0 {
                        } else if m < ident_view(id).len() - 1 {
                            assert(ident_view(id)[m] == inner@[m - 1]);
                        }
                    }
                    assert(ident_view(id) =~= s@.subrange(p as int, q + 1));
                }
                return Some((q + 1, id));
            }
            q = q + 1;
        }
        // No closing quote: no identifier here.
        proof {
            lemma_quote_close_here(s@, p + 1, s@.len() as int);
        }
        return None;
    }
    if !(('a' <= c && c <= 'z') || ('A' <= c && c <= 'Z') || c == '_') {
        return None;
    }
    let mut q = p + 1;
    let mut done = false;
    while q < n && !done
        invariant
            p < q <= n == s@.len(),
            forall|j: int| p <= j < q ==> is_ident_char(s@[j]),
            done ==> q < s@.len() && !is_ident_char(s@[q as int]),
        decreases n - q + if done {
            0int
        } else {
            1int
        },
    {
        let d = s.get_char(q);
        if ('a' <= d && d <= 'z') || ('A' <= d && d <= 'Z') || d == '_' || ('0' <= d && d <= '9') {
            q = q + 1;
        } else {
            done = true;
        }
    }
    let word = s.substring_char(p, q);
    let id = Identifier::Unquoted(String::from_str(word));
    proof {
        lemma_ident_run_end_here(s@, p as int, q as int);
        assert(ident_view(id) =~= s@.subrange(p as int, q as int));
    }
    Some((q, id))
}

/// Parse an unsigned decimal number at `p`: the maximal digit run, rejected
/// when empty or when its value does not fit in a `u64`.
pub fn unsigned_number(s: &str, p: usize) -> (r: Option<(usize, u64)>)
    requires
        p <= s@.len(),
    ensures
        match r {
            Some((q, v)) => {
                &&& p < q <= s@.len()
                &&& q as int == digit_run_end(s@, p as int)
                &&& v as int == digits_val(s@, p as int, q as int)
            },
            None => p as int == s@.len() || !is_digit(s@[p as int]) || digits_val(
                s@,
                p as int,
                digit_run_end(s@, p as int),
            ) > u64::MAX,
        },
{
    let n = s.unicode_len();
    if p >= n {
        return None;
    }
    if !('0' <= s.get_char(p) && s.get_char(p) <= '9') {
        return None;
    }
    let mut q = p;
    let mut v: u64 = 0;
    let mut overflow = false;
    let mut done = false;
    while q < n && !done
        invariant
            p <= q <= n == s@.len(),
            forall|j: int| p <= j < q ==> is_digit(s@[j]),
            !overflow ==> v as int == digits_val(s@, p as int, q as int),
            overflow ==> digits_val(s@, p as int, q as int) > u64::MAX,
            done ==> q < s@.len() && !is_digit(s@[q as int]),
        decreases n - q + if done {
            0int
        } else {
            1int
        },
    {
        let d = s.get_char(q);
        if !('0' <= d && d <= '9') {
            done = true;
            continue;
        }
        let digit: u64 = (d as u32 - 48) as u64;
        proof {
            assert(digits_val(s@, p as int, q + 1) == digits_val(s@, p as int, q as int) * 10 + (
            s@[q as int] as int - '0' as int));
            if overflow {
                lemma_digits_val_grows(s@, p as int, q as int);
            }
        }
        if !overflow {
            if v > (u64::MAX - digit) / 10 {
                overflow = true;
                proof {
                    assert((v as int) * 10 + digit > u64::MAX) by (nonlinear_arith)
                        requires
                            v as int > (u64::MAX - digit) / 10,
                            0 <= digit <= 9,
                    ;
                }
            } else {
                proof {
                    assert((v as int) * 10 + digit <= u64::MAX) by (nonlinear_arith)
                        requires
                            v as int <= (u64::MAX - digit) / 10,
                            0 <= digit <= 9,
                    ;
                }
                v = v * 10 + digit;
            }
        }
        q = q + 1;
    }
    proof {
        lemma_digit_run_end_here(s@, p as int, q as int);
    }
    if overflow {
        None
    } else {
        Some((q, v))
    }
}

/// Appending a digit cannot shrink the value.
proof fn lemma_digits_val_grows(s: Seq<char>, p: int, q: int)
    requires
        p <= q,
        is_digit(s[q]),
        digits_val(s, p, q) >= 0,
    ensures
        digits_val(s, p, q + 1) >= digits_val(s, p, q),
        digits_val(s, p, q + 1) >= 0,
{
    let v = digits_val(s, p, q);
    assert(v * 10 >= v) by (nonlinear_arith)
        requires
            v >= 0,
    ;
}

/// A scan that stopped at a non-digit (or the end) after digits landed exactly
/// at the digit run's end.
proof fn lemma_digit_run_end_here(s: Seq<char>, p: int, q: int)
    requires
        0 <= p <= q <= s.len(),
        forall|j: int| p <= j < q ==> is_digit(s[j]),
        q == s.len() || !is_digit(s[q]),
    ensures
        digit_run_end(s, p) == q,
    decreases q - p,
{
    if p < q {
        lemma_digit_run_end_here(s, p + 1, q);
    }
}

/// A fully-qualified measurement name: a 1, 2 or 3-part name.
#[derive(Clone, Debug, PartialEq, Eq, Hash)]
pub struct MeasurementNameExpression {
    /// The database, in a 3-part name or a `db..name` form.
    pub database: Option<Identifier>,
    /// The retention policy, in a 2- or 3-part name.
    pub retention_policy: Option<Identifier>,
    /// The measurement name.
    pub name: Identifier,
}

/// Rendering of a measurement name expression.
pub open spec fn mne_view(m: MeasurementNameExpression) -> Seq<char> {
    match (m.database, m.retention_policy) {
        (Option::None, Option::None) => ident_view(m.name),
        (Option::Some(db), Option::None) => ident_view(db) + seq!['.', '.'] + ident_view(m.name),
        (Option::None, Option::Some(rp)) => ident_view(rp) + seq!['.'] + ident_view(m.name),
        (Option::Some(db), Option::Some(rp)) => ident_view(db) + seq!['.'] + ident_view(rp)
            + seq!['.'] + ident_view(m.name),
    }
}

/// Render an identifier.
pub fn ident_string(id: &Identifier) -> (r: String)
    ensures
        r@ == ident_view(*id),
{
    match id {
        Identifier::Unquoted(x) => x.clone(),
        Identifier::Quoted(x) => {
            let mut r = String::from_str("\"");
            r.append(x.as_str());
            r.append("\"");
            proof {
                reveal_strlit("\"");
                assert(r@ =~= ident_view(*id));
            }
            r
        },
    }
}

/// Render a measurement name expression, as its parser accepts it.
pub fn mne_string(m: &MeasurementNameExpression) -> (r: String)
    ensures
        r@ == mne_view(*m),
{
    let mut r = String::new();
    match (&m.database, &m.retention_policy) {
        (Option::None, Option::None) => {
            r.append(ident_string(&m.name).as_str());
        },
        (Option::Some(db), Option::None) => {
            r.append(ident_string(db).as_str());
            r.append("..");
            r.append(ident_string(&m.name).as_str());
            proof {
                reveal_strlit("..");
            }
        },
        (Option::None, Option::Some(rp)) => {
            r.append(ident_string(rp).as_str());
            r.append(".");
            r.append(ident_string(&m.name).as_str());
            proof {
                reveal_strlit(".");
            }
        },
        (Option::Some(db), Option::Some(rp)) => {
            r.append(ident_string(db).as_str());
            r.append(".");
            r.append(ident_string(rp).as_str());
            r.append(".");
            r.append(ident_string(&m.name).as_str());
            proof {
                reveal_strlit(".");
            }
        },
    }
    proof {
        assert(r@ =~= mne_view(*m));
    }
    r
}

/// The one parse of a measurement name: after the first identifier (ending at
/// `q1`), the follow characters decide the form — `..` plus an identifier is
/// `db..name`, `.` plus an identifier is `db.rp.name` or `rp.name` depending
/// on what follows the second identifier, and anything else leaves a bare
/// name ending at `q1`.
pub open spec fn mne_shape(
    s: Seq<char>,
    q1: int,
    q: int,
    m: MeasurementNameExpression,
) -> bool {
    let dot1 = q1 < s.len() && s[q1] == '.';
    let dotdot = dot1 && q1 + 1 < s.len() && s[q1 + 1] == '.';
    if dotdot && spec_ident_at(s, q1 + 2) is Some {
        match spec_ident_at(s, q1 + 2) {
            Some((q3, _)) => {
                &&& m.database is Some
                &&& m.retention_policy is None
                &&& ident_view(m.database->0) == s.subrange(0, q1)
                &&& ident_view(m.name) == s.subrange(q1 + 2, q3)
                &&& q == q3
            },
            None => false,
        }
    } else if dot1 && !dotdot && spec_ident_at(s, q1 + 1) is Some {
        match spec_ident_at(s, q1 + 1) {
            Some((q2, _)) => {
                if q2 < s.len() && s[q2] == '.' && spec_ident_at(s, q2 + 1) is Some {
                    match spec_ident_at(s, q2 + 1) {
                        Some((q3, _)) => {
                            &&& m.database is Some
                            &&& m.retention_policy is Some
                            &&& ident_view(m.database->0) == s.subrange(0, q1)
                            &&& ident_view(m.retention_policy->0) == s.subrange(q1 + 1, q2)
                            &&& ident_view(m.name) == s.subrange(q2 + 1, q3)
                            &&& q == q3
                        },
                        None => false,
                    }
                } else {
                    &&& m.database is None
                    &&& m.retention_policy is Some
                    &&& ident_view(m.retention_policy->0) == s.subrange(0, q1)
                    &&& ident_view(m.name) == s.subrange(q1 + 1, q2)
                    &&& q == q2
                }
            },
            None => false,
        }
    } else {
        &&& m.database is None
        &&& m.retention_policy is None
        &&& ident_view(m.name) == s.subrange(0, q1)
        &&& q == q1
    }
}

/// Parse a 1, 2 or 3-part measurement name at the start of the input: exactly
/// the one parse `mne_shape` describes, whose rendering is exactly the
/// consumed prefix.
pub fn measurement_name_expression(s: &str) -> (r: Option<(usize, MeasurementNameExpression)>)
    ensures
        match r {
            Some((q, m)) => {
                &&& q <= s@.len()
                &&& mne_view(m) == s@.subrange(0, q as int)
                &&& match spec_ident_at(s@, 0) {
                    Some((q1, _)) => mne_shape(s@, q1, q as int, m),
                    None => false,
                }
            },
            None => spec_ident_at(s@, 0) is None,
        },
{
    let n = s.unicode_len();
    let first = match parse_identifier(s, 0) {
        Some(x) => x,
        None => {
            return None;
        },
    };
    let (q1, id1) = first;
    if q1 < n && s.get_char(q1) == '.' {
        if q1 + 1 < n && s.get_char(q1 + 1) == '.' {
            // database \"..\" name
            if let Some((q3, name)) = parse_identifier(s, q1 + 2) {
                let m = MeasurementNameExpression {
                    database: Some(id1),
                    retention_policy: None,
                    name,
                };
                proof {
                    assert(mne_view(m) =~= s@.subrange(0, q3 as int));
                }
                return Some((q3, m));
            }
        } else if q1 + 1 <= n {
            if let Some((q2, id2)) = parse_identifier(s, q1 + 1) {
                if q2 < n && s.get_char(q2) == '.' {
                    // database \".\" retention_policy \".\" name
                    if let Some((q3, name)) = parse_identifier(s, q2 + 1) {
                        let m = MeasurementNameExpression {
                            database: Some(id1),
                            retention_policy: Some(id2),
                            name,
                        };
                        proof {
                            assert(mne_view(m) =~= s@.subrange(0, q3 as int));
                        }
                        return Some((q3, m));
                    }
                }
                // retention_policy \".\" name
                let m = MeasurementNameExpression {
                    database: None,
                    retention_policy: Some(id1),
                    name: id2,
                };
                proof {
                    assert(mne_view(m) =~= s@.subrange(0, q2 as int));
                }
                return Some((q2, m));
            }
        }
    }
    // A bare name.
    let m = MeasurementNameExpression { database: None, retention_policy: None, name: id1 };
    proof {
        assert(mne_view(m) =~= s@.subrange(0, q1 as int));
    }
    Some((q1, m))
}

/// The `ON` clause of `SHOW MEASUREMENTS`: a database, a database and
/// retention policy, or wildcards.
#[derive(Clone, Debug, PartialEq, Eq, Hash)]
pub enum OnExpression {
    /// One database.
    Database(Identifier),
    /// A database and a retention policy.
    DatabaseRetentionPolicy(Identifier, Identifier),
    /// Every database.
    AllDatabases,
    /// Every database and retention policy.
    AllDatabasesAndRetentionPolicies,
}

/// Rendering of an `ON` expression body.
pub open spec fn on_view(e: OnExpression) -> Seq<char> {
    match e {
        OnExpression::Database(db) => ident_view(db),
        OnExpression::DatabaseRetentionPolicy(db, rp) => ident_view(db) + seq!['.'] + ident_view(
            rp,
        ),
        OnExpression::AllDatabases => seq!['*'],
        OnExpression::AllDatabasesAndRetentionPolicies => seq!['*', '.', '*'],
    }
}

/// Render an `ON` expression body.
pub fn on_string(e: &OnExpression) -> (r: String)
    ensures
        r@ == on_view(*e),
{
    match e {
        OnExpression::Database(db) => ident_string(db),
        OnExpression::DatabaseRetentionPolicy(db, rp) => {
            let mut r = ident_string(db);
            r.append(".");
            r.append(ident_string(rp).as_str());
            proof {
                reveal_strlit(".");
                assert(r@ =~= on_view(*e));
            }
            r
        },
        OnExpression::AllDatabases => {
            let r = String::from_str("*");
            proof {
                reveal_strlit("*");
                assert(r@ =~= on_view(*e));
            }
            r
        },
        OnExpression::AllDatabasesAndRetentionPolicies => {
            let r = String::from_str("*.*");
            proof {
                reveal_strlit("*.*");
                assert(r@ =~= on_view(*e));
            }
            r
        },
    }
}

/// Does the input carry the keyword `ON` (case-insensitive) at `p`?
pub open spec fn kw_on_at(s: Seq<char>, p: int) -> bool {
    p + 2 <= s.len() && (s[p] == 'o' || s[p] == 'O') && (s[p + 1] == 'n' || s[p + 1] == 'N')
}

/// Parse the `ON` expression of `SHOW MEASUREMENTS` at `p`: the keyword, at
/// least one space, and a database form. The rendering of the result is
/// exactly the consumed body.
/// The one parse of an `ON` body at `k`: the `*.*` wildcard when the three
/// characters are there, else the `*` wildcard, else one identifier, extended
/// to a database/retention-policy pair when a dot and a second identifier
/// follow.
pub open spec fn on_body_shape(s: Seq<char>, k: int, q: int, e: OnExpression) -> bool {
    if k < s.len() && s[k] == '*' {
        if k + 3 <= s.len() && s[k + 1] == '.' && s[k + 2] == '*' {
            e is AllDatabasesAndRetentionPolicies && q == k + 3
        } else {
            e is AllDatabases && q == k + 1
        }
    } else {
        match spec_ident_at(s, k) {
            Some((q1, _)) => {
                if q1 < s.len() && s[q1] == '.' && spec_ident_at(s, q1 + 1) is Some {
                    match spec_ident_at(s, q1 + 1) {
                        Some((q2, _)) => match e {
                            OnExpression::DatabaseRetentionPolicy(db, rp) => {
                                &&& ident_view(db) == s.subrange(k, q1)
                                &&& ident_view(rp) == s.subrange(q1 + 1, q2)
                                &&& q == q2
                            },
                            _ => false,
                        },
                        None => false,
                    }
                } else {
                    match e {
                        OnExpression::Database(db) => ident_view(db) == s.subrange(k, q1) && q
                            == q1,
                        _ => false,
                    }
                }
            },
            None => false,
        }
    }
}

pub fn on_expression(s: &str, p: usize) -> (r: Option<(usize, OnExpression)>)
    requires
        p <= s@.len(),
    ensures
        (r matches Some((q, e)) ==> {
            let k = space_run_end(s@, p + 2);
            &&& kw_on_at(s@, p as int)
            &&& k > p + 2
            &&& k <= q <= s@.len()
            &&& on_view(e) == s@.subrange(k, q as int)
            &&& on_body_shape(s@, k, q as int, e)
        }),
        (r is None ==> !(kw_on_at(s@, p as int) && space_run_end(s@, p + 2) > p + 2 && {
            let k = space_run_end(s@, p + 2);
            (k < s@.len() && s@[k] == '*') || spec_ident_at(s@, k) is Some
        })),
{
    let n = s.unicode_len();
    if n - p < 2 {
        return None;
    }
    let c0 = s.get_char(p);
    let c1 = s.get_char(p + 1);
    if !((c0 == 'o' || c0 == 'O') && (c1 == 'n' || c1 == 'N')) {
        return None;
    }
    let k = skip_spaces(s, p + 2);
    if k == p + 2 {
        return None;
    }
    if k < n && s.get_char(k) == '*' {
        if n - k >= 3 && s.get_char(k + 1) == '.' && s.get_char(k + 2) == '*' {
            proof {
                assert(on_view(OnExpression::AllDatabasesAndRetentionPolicies) =~= s@.subrange(
                    k as int,
                    k + 3,
                ));
            }
            return Some((k + 3, OnExpression::AllDatabasesAndRetentionPolicies));
        }
        proof {
            assert(on_view(OnExpression::AllDatabases) =~= s@.subrange(k as int, k + 1));
        }
        return Some((k + 1, OnExpression::AllDatabases));
    }
    let (q1, id1) = match parse_identifier(s, k) {
        Some(x) => x,
        None => {
            return None;
        },
    };
    if q1 < n && s.get_char(q1) == '.' {
        if let Some((q2, id2)) = parse_identifier(s, q1 + 1) {
            let e = OnExpression::DatabaseRetentionPolicy(id1, id2);
            proof {
                assert(on_view(e) =~= s@.subrange(k as int, q2 as int));
            }
            return Some((q2, e));
        }
    }
    let e = OnExpression::Database(id1);
    proof {
        assert(on_view(e) =~= s@.subrange(k as int, q1 as int));
    }
    Some((q1, e))
}

/// The measurement constraint of `SHOW MEASUREMENTS`.
#[derive(Clone, Debug, PartialEq, Eq, Hash)]
pub enum MeasurementExpression {
    /// An exact measurement name.
    Equals(MeasurementNameExpression),
}

/// Rendering of a measurement constraint.
pub open spec fn mexpr_view(e: MeasurementExpression) -> Seq<char> {
    match e {
        MeasurementExpression::Equals(m) => seq!['=', ' '] + mne_view(m),
    }
}

/// Render a measurement constraint.
pub fn mexpr_string(e: &MeasurementExpression) -> (r: String)
    ensures
        r@ == mexpr_view(*e),
{
    match e {
        MeasurementExpression::Equals(m) => {
            let mut r = String::from_str("= ");
            r.append(mne_string(m).as_str());
            proof {
                reveal_strlit("= ");
                assert(r@ =~= mexpr_view(*e));
            }
            r
        },
    }
}

/// A `SHOW MEASUREMENTS` statement.
#[derive(Clone, Debug, PartialEq, Eq, Hash)]
pub struct ShowMeasurementsStatement {
    /// The `ON` clause, if present.
    pub on_expression: Option<OnExpression>,
    /// The `WITH MEASUREMENT` clause, if present.
    pub measurement_expression: Option<MeasurementExpression>,
}

impl Default for ShowMeasurementsStatement {
    /// A bare `SHOW MEASUREMENTS`.
    fn default() -> (r: Self)
        ensures
            r.on_expression is None,
            r.measurement_expression is None,
    {
        ShowMeasurementsStatement { on_expression: None, measurement_expression: None }
    }
}

/// Canonical rendering of a statement.
pub open spec fn stmt_view(st: ShowMeasurementsStatement) -> Seq<char> {
    let head = "SHOW MEASUREMENTS"@;
    let with_on = match st.on_expression {
        Option::Some(e) => head + " ON "@ + on_view(e),
        Option::None => head,
    };
    match st.measurement_expression {
        Option::Some(me) => with_on + " WITH MEASUREMENT "@ + mexpr_view(me),
        Option::None => with_on,
    }
}

/// Render a statement in its canonical form.
pub fn stmt_string(st: &ShowMeasurementsStatement) -> (r: String)
    ensures
        r@ == stmt_view(*st),
{
    let mut r = String::from_str("SHOW MEASUREMENTS");
    match &st.on_expression {
        Some(e) => {
            r.append(" ON ");
            r.append(on_string(e).as_str());
        },
        None => {
        },
    }
    match &st.measurement_expression {
        Some(me) => {
            r.append(" WITH MEASUREMENT ");
            r.append(mexpr_string(me).as_str());
        },
        None => {
        },
    }
    proof {
        assert(r@ =~= stmt_view(*st));
    }
    r
}

/// Does the input carry the keyword `LIMIT` (case-insensitive) at the start?
pub open spec fn kw_limit(s: Seq<char>) -> bool {
    s.len() >= 5 && (s[0] == 'l' || s[0] == 'L') && (s[1] == 'i' || s[1] == 'I') && (s[2] == 'm'
        || s[2] == 'M') && (s[3] == 'i' || s[3] == 'I') && (s[4] == 't' || s[4] == 'T')
}

/// Does the input carry the keyword `OFFSET` (case-insensitive) at the start?
pub open spec fn kw_offset(s: Seq<char>) -> bool {
    s.len() >= 6 && (s[0] == 'o' || s[0] == 'O') && (s[1] == 'f' || s[1] == 'F') && (s[2] == 'f'
        || s[2] == 'F') && (s[3] == 's' || s[3] == 'S') && (s[4] == 'e' || s[4] == 'E') && (s[5]
        == 't' || s[5] == 'T')
}

/// A keyword-then-number clause parses exactly when the keyword is followed by
/// at least one space and a digit run whose value fits in a `u64`.
pub open spec fn kw_number_ok(s: Seq<char>, kw_len: int) -> bool {
    let k = space_run_end(s, kw_len);
    let q = digit_run_end(s, k);
    &&& k > kw_len
    &&& q > k
    &&& digits_val(s, k, q) <= u64::MAX
}

/// Parse a `LIMIT <n>` clause: the keyword in any letter case, whitespace, and
/// an unsigned number. Succeeds exactly on inputs of that shape whose number
/// fits in a `u64`, and returns that number.
pub fn limit_clause(s: &str) -> (r: Option<(usize, u64)>)
    ensures
        (r matches Some((q, v)) ==> {
            let k = space_run_end(s@, 5);
            &&& kw_limit(s@)
            &&& kw_number_ok(s@, 5)
            &&& q as int == digit_run_end(s@, k)
            &&& v as int == digits_val(s@, k, q as int)
        }),
        (r is None ==> !(kw_limit(s@) && kw_number_ok(s@, 5))),
{
    let n = s.unicode_len();
    if n < 5 {
        return None;
    }
    let c0 = s.get_char(0);
    let c1 = s.get_char(1);
    let c2 = s.get_char(2);
    let c3 = s.get_char(3);
    let c4 = s.get_char(4);
    if !((c0 == 'l' || c0 == 'L') && (c1 == 'i' || c1 == 'I') && (c2 == 'm' || c2 == 'M') && (c3
        == 'i' || c3 == 'I') && (c4 == 't' || c4 == 'T')) {
        return None;
    }
    let k = skip_spaces(s, 5);
    if k == 5 {
        return None;
    }
    unsigned_number(s, k)
}

/// Parse an `OFFSET <n>` clause: the keyword in any letter case, whitespace,
/// and an unsigned number. Succeeds exactly on inputs of that shape whose
/// number fits in a `u64`, and returns that number.
pub fn offset_clause(s: &str) -> (r: Option<(usize, u64)>)
    ensures
        (r matches Some((q, v)) ==> {
            let k = space_run_end(s@, 6);
            &&& kw_offset(s@)
            &&& kw_number_ok(s@, 6)
            &&& q as int == digit_run_end(s@, k)
            &&& v as int == digits_val(s@, k, q as int)
        }),
        (r is None ==> !(kw_offset(s@) && kw_number_ok(s@, 6))),
{
    let n = s.unicode_len();
    if n < 6 {
        return None;
    }
    let c0 = s.get_char(0);
    let c1 = s.get_char(1);
    let c2 = s.get_char(2);
    let c3 = s.get_char(3);
    let c4 = s.get_char(4);
    let c5 = s.get_char(5);
    if !((c0 == 'o' || c0 == 'O') && (c1 == 'f' || c1 == 'F') && (c2 == 'f' || c2 == 'F') && (c3
        == 's' || c3 == 'S') && (c4 == 'e' || c4 == 'E') && (c5 == 't' || c5 == 'T')) {
        return None;
    }
    let k = skip_spaces(s, 6);
    if k == 6 {
        return None;
    }
    unsigned_number(s, k)
}

/// Parse the terminator that ends a statement: optional whitespace, then a
/// semicolon, a line ending, or the end of the input, then optional
/// whitespace.
/// A statement terminator sits at `p` when, after optional whitespace, the
/// input ends or carries a semicolon or a line ending; `terminator_end` is the
/// position after it and its trailing whitespace.
pub open spec fn terminator_at(s: Seq<char>, p: int) -> bool {
    let k = space_run_end(s, p);
    ||| k == s.len()
    ||| s[k] == ';'
    ||| s[k] == '\n'
    ||| (s[k] == '\r' && k + 1 < s.len() && s[k + 1] == '\n')
}

/// Position after the terminator at `p` and its trailing whitespace.
pub open spec fn terminator_end(s: Seq<char>, p: int) -> int {
    let k = space_run_end(s, p);
    if k == s.len() {
        k
    } else if s[k] == ';' || s[k] == '\n' {
        space_run_end(s, k + 1)
    } else {
        space_run_end(s, k + 2)
    }
}

pub fn statement_terminator(s: &str, p: usize) -> (r: Option<usize>)
    requires
        p <= s@.len(),
    ensures
        (r matches Some(q) ==> p <= q <= s@.len() && terminator_at(s@, p as int) && q as int
            == terminator_end(s@, p as int)),
        (r is None ==> !terminator_at(s@, p as int)),
{
    let n = s.unicode_len();
    let k = skip_spaces(s, p);
    if k == n {
        return Some(k);
    }
    let c = s.get_char(k);
    if c == ';' || c == '\n' {
        return Some(skip_spaces(s, k + 1));
    }
    if c == '\r' && k + 1 < n && s.get_char(k + 1) == '\n' {
        return Some(skip_spaces(s, k + 2));
    }
    None
}

/// Does the input carry `SHOW` (case-insensitive) at `p`?
pub open spec fn kw_show_at(s: Seq<char>, p: int) -> bool {
    p + 4 <= s.len() && (s[p] == 's' || s[p] == 'S') && (s[p + 1] == 'h' || s[p + 1] == 'H') && (
    s[p + 2] == 'o' || s[p + 2] == 'O') && (s[p + 3] == 'w' || s[p + 3] == 'W')
}

/// The letters of `measurements`, for the case-insensitive keyword test.
pub open spec fn kw_measurements_at(s: Seq<char>, p: int) -> bool {
    let w = "measurements"@;
    p + 12 <= s.len() && forall|j: int|
        0 <= j < 12 ==> #[trigger] matches_ci(s[p + j], w[j])
}

/// Case-insensitive match of one character against a lowercase ASCII letter.
pub open spec fn matches_ci(c: char, lower: char) -> bool {
    c == lower || c as int == lower as int - 32
}

/// Case-insensitive test of one character against a lowercase ASCII letter.
fn matches_ci_exec(c: char, lower: char) -> (r: bool)
    requires
        'a' <= lower && lower <= 'z',
    ensures
        r == matches_ci(c, lower),
{
    let cu = c as u32;
    let lu = lower as u32;
    c == lower || cu == lu - 32
}

/// The letters of `measurement`, for the case-insensitive keyword test.
pub open spec fn kw_measurement_at(s: Seq<char>, p: int) -> bool {
    let w = "measurement"@;
    p + 11 <= s.len() && forall|j: int|
        0 <= j < 11 ==> #[trigger] matches_ci(s[p + j], w[j])
}

/// Match the keyword `measurement` (case-insensitive, the singular) at `p`.
fn match_measurement_kw(s: &str, p: usize) -> (r: bool)
    requires
        p <= s@.len(),
    ensures
        r == kw_measurement_at(s@, p as int),
{
    let n = s.unicode_len();
    if n - p < 11 {
        proof {
            reveal_strlit("measurement");
        }
        return false;
    }
    let kw = "measurement";
    proof {
        reveal_strlit("measurement");
    }
    let mut j: usize = 0;
    while j < 11
        invariant
            0 <= j <= 11,
            p + 11 <= s@.len(),
            p as int + 11 <= usize::MAX as int,
            kw@ == "measurement"@,
            kw@.len() == 11,
            forall|m: int| 0 <= m < j ==> #[trigger] matches_ci(s@[p + m], "measurement"@[m]),
        decreases 11 - j,
    {
        let c = s.get_char(p + j);
        let l = kw.get_char(j);
        proof {
            reveal_strlit("measurement");
            assert("measurement"@[j as int] == l);
            assert('a' <= l && l <= 'z');
        }
        if !matches_ci_exec(c, l) {
            return false;
        }
        j = j + 1;
    }
    true
}

/// Match the keyword `measurements` (case-insensitive) at `p`.
fn match_measurements(s: &str, p: usize) -> (r: bool)
    requires
        p <= s@.len(),
    ensures
        r == kw_measurements_at(s@, p as int),
{
    let n = s.unicode_len();
    if n - p < 12 {
        proof {
            reveal_strlit("measurements");
        }
        return false;
    }
    let kw = "measurements";
    proof {
        reveal_strlit("measurements");
    }
    let mut j: usize = 0;
    while j < 12
        invariant
            0 <= j <= 12,
            p + 12 <= s@.len(),
            p as int + 12 <= usize::MAX as int,
            kw@ == "measurements"@,
            kw@.len() == 12,
            forall|m: int| 0 <= m < j ==> #[trigger] matches_ci(s@[p + m], "measurements"@[m]),
        decreases 12 - j,
    {
        let c = s.get_char(p + j);
        let l = kw.get_char(j);
        proof {
            reveal_strlit("measurements");
            assert("measurements"@[j as int] == l);
            assert('a' <= l && l <= 'z');
        }
        if !matches_ci_exec(c, l) {
            return false;
        }
        j = j + 1;
    }
    true
}

/// Parse a `SHOW MEASUREMENTS` statement: the two keywords, an optional `ON`
/// clause, an optional `WITH MEASUREMENT =` constraint, and a statement
/// terminator. On success the parsed clauses render to the text they were
/// parsed from.
pub fn show_measurements(s: &str) -> (r: Option<(usize, ShowMeasurementsStatement)>)
    ensures
        (r matches Some((q, st)) ==> {
            &&& q <= s@.len()
            &&& kw_show_at(s@, 0)
            &&& space_run_end(s@, 4) > 4
            &&& kw_measurements_at(s@, space_run_end(s@, 4))
            &&& (st.on_expression matches Some(e) ==> {
                let k2 = space_run_end(s@, space_run_end(s@, 4) + 12);
                &&& k2 > space_run_end(s@, 4) + 12
                &&& kw_on_at(s@, k2)
                &&& exists|b: int|
                    space_run_end(s@, k2 + 2) <= b <= s@.len() && on_view(e) == s@.subrange(
                        space_run_end(s@, k2 + 2),
                        b,
                    ) && #[trigger] on_body_shape(s@, space_run_end(s@, k2 + 2), b, e)
            })
            &&& (st.measurement_expression matches Some(MeasurementExpression::Equals(m))
                ==> exists|a: int, b: int|
                0 <= a <= b <= s@.len() && mne_view(m) == s@.subrange(a, b))
        }),
        (r is None ==> !(kw_show_at(s@, 0) && space_run_end(s@, 4) > 4 && kw_measurements_at(
            s@,
            space_run_end(s@, 4),
        ) && terminator_at(s@, space_run_end(s@, 4) + 12))),
{
    let n = s.unicode_len();
    if n < 4 {
        return None;
    }
    let c0 = s.get_char(0);
    let c1 = s.get_char(1);
    let c2 = s.get_char(2);
    let c3 = s.get_char(3);
    if !((c0 == 's' || c0 == 'S') && (c1 == 'h' || c1 == 'H') && (c2 == 'o' || c2 == 'O') && (c3
        == 'w' || c3 == 'W')) {
        return None;
    }
    let k1 = skip_spaces(s, 4);
    if k1 == 4 {
        return None;
    }
    if !match_measurements(s, k1) {
        return None;
    }
    let mut pos = k1 + 12;
    let mut on_expr: Option<OnExpression> = None;
    let k2 = skip_spaces(s, pos);
    if k2 > pos {
        if let Some((q, e)) = on_expression(s, k2) {
            on_expr = Some(e);
            pos = q;
        }
    }
    let mut m_expr: Option<MeasurementExpression> = None;
    let k3 = skip_spaces(s, pos);
    if k3 > pos {
        if let Some((q, me)) = with_measurement_expression(s, k3) {
            m_expr = Some(me);
            pos = q;
        }
    }
    let q = match statement_terminator(s, pos) {
        Some(q) => q,
        None => {
            // The statement's prefix was fine but no terminator follows; when
            // a clause was consumed, its keyword already rules out a
            // terminator right after the two statement keywords.
            proof {
                let pos0 = space_run_end(s@, 4) + 12;
                if on_expr is Some {
                    let k2 = space_run_end(s@, pos0);
                    assert(kw_on_at(s@, k2));
                    assert(!terminator_at(s@, pos0));
                } else if m_expr is Some {
                    let k3 = space_run_end(s@, pos0);
                    assert(s@[k3] == 'w' || s@[k3] == 'W');
                    assert(!terminator_at(s@, pos0));
                } else {
                    assert(pos as int == pos0);
                }
            }
            return None;
        },
    };
    Some((q, ShowMeasurementsStatement { on_expression: on_expr, measurement_expression: m_expr }))
}

/// Parse a `WITH MEASUREMENT = <name>` constraint at `p`.
pub fn with_measurement_expression(s: &str, p: usize) -> (r: Option<(usize, MeasurementExpression)>)
    requires
        p <= s@.len(),
    ensures
        (r matches Some((q, MeasurementExpression::Equals(m))) ==> {
            &&& p < q <= s@.len()
            &&& p < s@.len() && (s@[p as int] == 'w' || s@[p as int] == 'W')
            &&& exists|a: int, b: int| 0 <= a <= b <= s@.len() && mne_view(m) == s@.subrange(a, b)
        }),
{
    let n = s.unicode_len();
    if n - p < 4 {
        return None;
    }
    let c0 = s.get_char(p);
    let c1 = s.get_char(p + 1);
    let c2 = s.get_char(p + 2);
    let c3 = s.get_char(p + 3);
    if !((c0 == 'w' || c0 == 'W') && (c1 == 'i' || c1 == 'I') && (c2 == 't' || c2 == 'T') && (c3
        == 'h' || c3 == 'H')) {
        return None;
    }
    let k1 = skip_spaces(s, p + 4);
    if k1 == p + 4 {
        return None;
    }
    if !match_measurement_kw(s, k1) {
        return None;
    }
    let k2 = skip_spaces(s, k1 + 11);
    if !(k2 < n && s.get_char(k2) == '=') {
        return None;
    }
    let k3 = skip_spaces(s, k2 + 1);
    if k3 == k2 + 1 {
        return None;
    }
    match measurement_name_expression_at(s, k3) {
        Some((q, m)) => Some((q, MeasurementExpression::Equals(m))),
        None => None,
    }
}

/// Parse a measurement name expression starting at `p`.
pub fn measurement_name_expression_at(s: &str, p: usize) -> (r: Option<(
    usize,
    MeasurementNameExpression,
)>)
    requires
        p <= s@.len(),
    ensures
        (r matches Some((q, m)) ==> p <= q <= s@.len() && mne_view(m) == s@.subrange(
            p as int,
            q as int,
        )),
{
    let tail = s.substring_char(p, s.unicode_len());
    match measurement_name_expression(tail) {
        Some((q, m)) => {
            proof {
                assert(tail@.subrange(0, q as int) =~= s@.subrange(p as int, p + q));
            }
            Some((p + q, m))
        },
        None => None,
    }
}

} // verus!
