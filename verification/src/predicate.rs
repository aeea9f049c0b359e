//! The query language that selects photos by capture time.
//!
//! A query is a list of clauses separated by commas. A clause is a keyword, a
//! space and a date expression: `after` and `since` ask for timestamps later
//! than the date, `before` and `preceding` for earlier ones. A query accepts a
//! timestamp if every clause does. The language fails closed: one clause that
//! cannot be read makes the whole query accept nothing.

use crate::calendar::resolve_date;
use crate::calendar::resolved_instant;
use crate::calendar::Instant;
use crate::text::bytes_equal;
use crate::text::index_of;
use crate::text::lemma_index_of;
use crate::text::split_once;
use vstd::prelude::*;
use vstd::string::*;

verus! {

/// The byte that separates clauses.
pub const COMMA: u8 = 0x2c;

/// The byte that separates a keyword from its date expression.
pub const SPACE: u8 = 0x20;

/// On which side of its date a clause accepts timestamps.
#[derive(Debug, Clone, Copy, PartialEq, Eq, Structural)]
pub enum Direction {
    After,
    Before,
}

/// One bound on the capture time. Both bounds are exclusive.
#[derive(Debug, Clone, Copy, PartialEq, Eq, Structural)]
pub enum Clause {
    After(Instant),
    Before(Instant),
}

impl Clause {
    /// Whether the whole second `t` lies strictly on the clause's side of its
    /// instant.
    pub open spec fn accepts(self, t: i64) -> bool {
        match self {
            Clause::After(at) => t > at.secs,
            Clause::Before(at) => t < at.secs || (t == at.secs && at.nanos > 0),
        }
    }

    /// Whether the clause accepts the timestamp.
    pub fn matches(&self, t: i64) -> (b: bool)
        ensures
            b == self.accepts(t),
    {
        match self {
            Clause::After(at) => t > at.secs,
            Clause::Before(at) => t < at.secs || (t == at.secs && at.nanos > 0),
        }
    }
}

/// Whether every clause accepts the timestamp.
pub open spec fn all_accept(clauses: Seq<Clause>, t: i64) -> bool {
    forall|k: int| 0 <= k < clauses.len() ==> (#[trigger] clauses[k]).accepts(t)
}

/// Whether a compiled query accepts the timestamp: an unreadable query (`None`)
/// accepts nothing.
pub open spec fn meaning_accepts(meaning: Option<Seq<Clause>>, t: i64) -> bool {
    match meaning {
        None => false,
        Some(clauses) => all_accept(clauses, t),
    }
}

/// A compiled query.
#[derive(Debug, Clone)]
pub enum Predicate {
    /// Accepts no timestamp.
    Nothing,
    /// Accepts the timestamps that every clause accepts.
    All(Vec<Clause>),
}

impl View for Predicate {
    type V = Option<Seq<Clause>>;

    open spec fn view(&self) -> Option<Seq<Clause>> {
        match self {
            Predicate::Nothing => None,
            Predicate::All(clauses) => Some(clauses@),
        }
    }
}

/// The side that a keyword stands for.
pub open spec fn direction_of(word: Seq<u8>) -> Option<Direction> {
    if word == "after".spec_bytes() || word == "since".spec_bytes() {
        Some(Direction::After)
    } else if word == "before".spec_bytes() || word == "preceding".spec_bytes() {
        Some(Direction::Before)
    } else {
        None
    }
}

/// The keyword of a clause: what stands before its first space.
pub open spec fn keyword_of(clause: Seq<u8>) -> Seq<u8> {
    clause.subrange(0, index_of(clause, SPACE))
}

/// The date expression of a clause: what follows its first space.
pub open spec fn expression_of(clause: Seq<u8>) -> Seq<u8> {
    let at = index_of(clause, SPACE);
    if at < clause.len() {
        clause.subrange(at + 1, clause.len() as int)
    } else {
        Seq::empty()
    }
}

/// The clause that bounds timestamps on the given side of an instant.
pub open spec fn bound(direction: Direction, at: Instant) -> Clause {
    match direction {
        Direction::After => Clause::After(at),
        Direction::Before => Clause::Before(at),
    }
}

/// The clause for a keyword and what its date expression resolved to; `None`
/// where either is missing.
pub open spec fn clause_of(direction: Option<Direction>, at: Option<Instant>) -> Option<Clause> {
    match (direction, at) {
        (Some(d), Some(i)) => Some(bound(d, i)),
        _ => None,
    }
}

/// What one clause means at the instant `now`. The date expression counts
/// only under a known keyword.
pub open spec fn clause_meaning(clause: Seq<u8>, now: i64) -> Option<Clause> {
    match direction_of(keyword_of(clause)) {
        None => None,
        Some(d) => clause_of(Some(d), resolved_instant(expression_of(clause), now)),
    }
}

/// The clauses of a compiled query followed by those of the rest of the query.
pub open spec fn followed_by(done: Seq<Clause>, rest: Option<Seq<Clause>>) -> Option<Seq<Clause>> {
    match rest {
        Some(more) => Some(done + more),
        None => None,
    }
}

/// What a query means at the instant `now`: its clauses in order, or `None`
/// where one of them cannot be read.
pub open spec fn query_meaning(query: Seq<u8>, now: i64) -> Option<Seq<Clause>>
    decreases query.len(),
{
    let at = index_of(query, COMMA);
    if 0 <= at < query.len() {
        match clause_meaning(query.subrange(0, at), now) {
            Some(c) => followed_by(seq![c], query_meaning(query.subrange(at + 1, query.len() as int), now)),
            None => None,
        }
    } else {
        followed_by(Seq::empty(), match clause_meaning(query, now) {
            Some(c) => Some(seq![c]),
            None => None,
        })
    }
}

/// Reads a keyword.
pub fn keyword_direction(word: &[u8]) -> (d: Option<Direction>)
    ensures
        d == direction_of(word@),
{
    if bytes_equal(word, "after".as_bytes()) || bytes_equal(word, "since".as_bytes()) {
        Some(Direction::After)
    } else if bytes_equal(word, "before".as_bytes()) || bytes_equal(word, "preceding".as_bytes()) {
        Some(Direction::Before)
    } else {
        None
    }
}

/// Builds the clause for a keyword's side and the instant its date expression
/// resolved to.
pub fn make_clause(direction: Option<Direction>, at: Option<Instant>) -> (c: Option<Clause>)
    ensures
        c == clause_of(direction, at),
{
    match (direction, at) {
        (Some(Direction::After), Some(i)) => Some(Clause::After(i)),
        (Some(Direction::Before), Some(i)) => Some(Clause::Before(i)),
        _ => None,
    }
}

/// Reads one clause at the instant `now`.
pub fn parse_clause(clause: &str, now: i64) -> (c: Option<Clause>)
    ensures
        c == clause_meaning(clause.spec_bytes(), now),
{
    let (word, expression) = split_once(clause, SPACE);
    match keyword_direction(word.as_bytes()) {
        None => None,
        Some(d) => make_clause(Some(d), resolve_date(expression, now)),
    }
}

impl Predicate {
    /// Whether the predicate accepts the timestamp.
    pub open spec fn accepts(&self, t: i64) -> bool {
        meaning_accepts(self@, t)
    }

    /// The predicate that accepts no timestamp.
    pub fn nothing() -> (p: Predicate)
        ensures
            p@ == None::<Seq<Clause>>,
    {
        Predicate::Nothing
    }

    /// The predicate without clauses, which accepts every timestamp. No query
    /// compiles to it.
    pub fn everything() -> (p: Predicate)
        ensures
            p@ == Some(Seq::<Clause>::empty()),
            forall|t: i64| p.accepts(t),
    {
        Predicate::All(Vec::new())
    }

    /// Whether the predicate accepts the timestamp.
    pub fn matches(&self, t: i64) -> (b: bool)
        ensures
            b == self.accepts(t),
    {
        match self {
            Predicate::Nothing => false,
            Predicate::All(clauses) => {
                let mut k: usize = 0;
                while k < clauses.len()
                    invariant
                        self@ == Some(clauses@),
                        k <= clauses@.len(),
                        forall|j: int| 0 <= j < k ==> (#[trigger] clauses@[j]).accepts(t),
                    decreases clauses@.len() - k,
                {
                    if !clauses[k].matches(t) {
                        assert(!clauses@[k as int].accepts(t));
                        return false;
                    }
                    k = k + 1;
                }
                true
            },
        }
    }
}

/// Compiles a query at the instant `now`, given in seconds since the
/// epoch. A query of which any clause cannot be read compiles to the
/// predicate that accepts nothing.
pub fn make_predicate(query: &str, now: i64) -> (p: Predicate)
    ensures
        p@ == query_meaning(query.spec_bytes(), now),
{
    let ghost whole = query.spec_bytes();
    let mut clauses: Vec<Clause> = Vec::new();
    let mut rest: &str = query;
    loop
        invariant
            whole == query.spec_bytes(),
            query_meaning(whole, now) == followed_by(
                clauses@,
                query_meaning(rest.spec_bytes(), now),
            ),
        decreases rest.spec_bytes().len(),
    {
        let ghost s = rest.spec_bytes();
        let ghost at = index_of(s, COMMA);
        proof {
            lemma_index_of(s, COMMA);
        }
        let len: usize = rest.as_bytes().len();
        let (clause, next) = split_once(rest, COMMA);
        let last: bool = clause.as_bytes().len() == len;
        match parse_clause(clause, now) {
            None => {
                assert(clause.spec_bytes() =~= if at < s.len() {
                    s.subrange(0, at)
                } else {
                    s
                });
                return Predicate::Nothing;
            },
            Some(c) => {
                let ghost done = clauses@;
                clauses.push(c);
                if last {
                    assert(clause.spec_bytes() =~= s);
                    assert(done + seq![c] =~= clauses@);
                    return Predicate::All(clauses);
                }
                proof {
                    let more = query_meaning(next.spec_bytes(), now);
                    if more is Some {
                        assert(done + (seq![c] + more->0) =~= clauses@ + more->0);
                    }
                }
                rest = next;
            },
        }
    }
}

/// The clauses of a query: the pieces between its commas.
pub open spec fn clauses_of(query: Seq<u8>) -> Seq<Seq<u8>>
    decreases query.len(),
{
    let at = index_of(query, COMMA);
    if 0 <= at < query.len() {
        seq![query.subrange(0, at)] + clauses_of(query.subrange(at + 1, query.len() as int))
    } else {
        seq![query]
    }
}

/// A query has at least one clause. It can be read if and only if each of its
/// clauses can, and then it means those clauses, in order.
pub proof fn lemma_query_meaning(query: Seq<u8>, now: i64)
    ensures
        ({
            let parts = clauses_of(query);
            let meaning = query_meaning(query, now);
            &&& parts.len() >= 1
            &&& meaning is Some <==> forall|k: int|
                0 <= k < parts.len() ==> clause_meaning(#[trigger] parts[k], now) is Some
            &&& meaning matches Some(clauses) ==> {
                &&& clauses.len() == parts.len()
                &&& forall|k: int|
                    0 <= k < clauses.len() ==> Some(#[trigger] clauses[k]) == clause_meaning(
                        parts[k],
                        now,
                    )
            }
        }),
    decreases query.len(),
{
    let parts = clauses_of(query);
    let meaning = query_meaning(query, now);
    let at = index_of(query, COMMA);
    lemma_index_of(query, COMMA);
    if 0 <= at < query.len() {
        let head = query.subrange(0, at);
        let tail = query.subrange(at + 1, query.len() as int);
        let rest = clauses_of(tail);
        lemma_query_meaning(tail, now);
        assert(parts[0] == head);
        assert forall|k: int| 1 <= k < parts.len() implies parts[k] == rest[k - 1] by {}
        if meaning is Some {
            let more = query_meaning(tail, now)->0;
            let c = clause_meaning(head, now)->0;
            assert(meaning->0 =~= seq![c] + more);
            assert forall|k: int| 0 <= k < parts.len() implies clause_meaning(
                #[trigger] parts[k],
                now,
            ) is Some by {
                if k > 0 {
                    assert(parts[k] == rest[k - 1]);
                }
            }
            assert forall|k: int| 0 <= k < meaning->0.len() implies Some(#[trigger] meaning->0[k])
                == clause_meaning(parts[k], now) by {
                if k > 0 {
                    assert(meaning->0[k] == more[k - 1]);
                    assert(parts[k] == rest[k - 1]);
                }
            }
        }
        if forall|k: int| 0 <= k < parts.len() ==> clause_meaning(#[trigger] parts[k], now) is Some {
            assert(clause_meaning(parts[0], now) is Some);
            assert forall|k: int| 0 <= k < rest.len() implies clause_meaning(
                #[trigger] rest[k],
                now,
            ) is Some by {
                assert(parts[k + 1] == rest[k]);
            }
        }
    } else {
        assert(parts[0] == query);
        if meaning is Some {
            assert(meaning->0 =~= seq![clause_meaning(query, now)->0]);
        }
    }
}

/// A query of which every clause can be read accepts exactly the timestamps
/// that each of its clauses accepts.
pub proof fn lemma_readable_query(query: Seq<u8>, now: i64, t: i64)
    requires
        forall|k: int|
            0 <= k < clauses_of(query).len() ==> clause_meaning(
                #[trigger] clauses_of(query)[k],
                now,
            ) is Some,
    ensures
        meaning_accepts(query_meaning(query, now), t) <==> forall|k: int|
            0 <= k < clauses_of(query).len() ==> clause_meaning(
                #[trigger] clauses_of(query)[k],
                now,
            )->0.accepts(t),
{
    lemma_query_meaning(query, now);
    let parts = clauses_of(query);
    let clauses = query_meaning(query, now)->0;
    if all_accept(clauses, t) {
        assert forall|k: int| 0 <= k < parts.len() implies clause_meaning(
            #[trigger] parts[k],
            now,
        )->0.accepts(t) by {
            assert(clauses[k].accepts(t));
        }
    }
    if forall|k: int|
        0 <= k < parts.len() ==> clause_meaning(#[trigger] parts[k], now)->0.accepts(t) {
        assert forall|k: int| 0 <= k < clauses.len() implies (#[trigger] clauses[k]).accepts(t) by {
            assert(Some(clauses[k]) == clause_meaning(parts[k], now));
        }
    }
}

/// One clause that cannot be read makes the query accept nothing.
pub proof fn lemma_fail_closed(query: Seq<u8>, now: i64, k: int, t: i64)
    requires
        0 <= k < clauses_of(query).len(),
        clause_meaning(clauses_of(query)[k], now) is None,
    ensures
        !meaning_accepts(query_meaning(query, now), t),
{
    lemma_query_meaning(query, now);
}

/// The keywords, byte by byte.
pub proof fn lemma_keywords()
    ensures
        "after".spec_bytes() == seq![0x61u8, 0x66, 0x74, 0x65, 0x72],
        "since".spec_bytes() == seq![0x73u8, 0x69, 0x6e, 0x63, 0x65],
        "before".spec_bytes() == seq![0x62u8, 0x65, 0x66, 0x6f, 0x72, 0x65],
        "preceding".spec_bytes() == seq![0x70u8, 0x72, 0x65, 0x63, 0x65, 0x64, 0x69, 0x6e, 0x67],
{
    reveal_strlit("after");
    reveal_strlit("since");
    reveal_strlit("before");
    reveal_strlit("preceding");
    is_ascii_spec_bytes("after");
    is_ascii_spec_bytes("since");
    is_ascii_spec_bytes("before");
    is_ascii_spec_bytes("preceding");
    assert("after".spec_bytes() =~= seq![0x61u8, 0x66, 0x74, 0x65, 0x72]);
    assert("since".spec_bytes() =~= seq![0x73u8, 0x69, 0x6e, 0x63, 0x65]);
    assert("before".spec_bytes() =~= seq![0x62u8, 0x65, 0x66, 0x6f, 0x72, 0x65]);
    assert("preceding".spec_bytes() =~= seq![0x70u8, 0x72, 0x65, 0x63, 0x65, 0x64, 0x69, 0x6e, 0x67]);
}

/// A clause without a keyword cannot be read; so the empty query, which is one
/// empty clause, accepts nothing.
pub proof fn lemma_empty_query(now: i64, t: i64)
    ensures
        direction_of(Seq::<u8>::empty()) is None,
        query_meaning(Seq::<u8>::empty(), now) is None,
        !meaning_accepts(query_meaning(Seq::<u8>::empty(), now), t),
{
    lemma_keywords();
    let empty = Seq::<u8>::empty();
    assert(keyword_of(empty) =~= empty);
}

/// A query of an `after` and a `before` clause, both on a whole second,
/// accepts the timestamps strictly between the two.
pub proof fn lemma_open_interval(from: i64, until: i64, t: i64)
    ensures
        meaning_accepts(
            Some(
                seq![
                    Clause::After(Instant { secs: from, nanos: 0 }),
                    Clause::Before(Instant { secs: until, nanos: 0 }),
                ],
            ),
            t,
        ) <==> from < t < until,
{
    let clauses = seq![
        Clause::After(Instant { secs: from, nanos: 0 }),
        Clause::Before(Instant { secs: until, nanos: 0 }),
    ];
    if all_accept(clauses, t) {
        assert(clauses[0].accepts(t));
        assert(clauses[1].accepts(t));
    }
}

} // verus!
