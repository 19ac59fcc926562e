//! The runtime database of claims: relations named by their templates,
//! statements of relations, and standing queries. Statements and queries are
//! numbered in the order they are inserted; redacting one empties its slot.

use vstd::prelude::*;

use crate::strings::str_eq;

use crate::value::ClaimValue;

verus! {

/// The number of a relation.
#[derive(Clone, Copy, Debug, PartialEq, Eq, Structural)]
pub struct Ri(pub usize);

/// The number of a statement.
#[derive(Clone, Copy, Debug, PartialEq, Eq, Structural)]
pub struct Si(pub usize);

/// The number of a query.
#[derive(Clone, Copy, Debug, PartialEq, Eq, Structural)]
pub struct Qi(pub usize);

/// The values a statement fills its relation's places with.
#[derive(Debug)]
pub struct StatementValue(pub Vec<ClaimValue>);

impl StatementValue {
    pub fn new(values: Vec<ClaimValue>) -> (r: StatementValue)
        ensures
            r.0@ == values@,
    {
        StatementValue(values)
    }
}

/// A place of a query statement: the query position it binds, or a value it
/// must hold.
#[derive(Debug)]
pub enum QueryPlaceholder {
    Pos(usize),
    Pin(ClaimValue),
}

/// A statement pattern of a query.
#[derive(Debug)]
pub struct QueryStatement {
    pub relation: Ri,
    pub places: Vec<QueryPlaceholder>,
}

/// A standing query: how many positions it binds and the statements that must
/// all hold.
#[derive(Debug)]
pub struct Query {
    pub positions: usize,
    pub statements: Vec<QueryStatement>,
}

/// A statement held by the database.
#[derive(Debug)]
pub struct Statement {
    pub depends_on: Vec<Si>,
    pub relation: Ri,
    pub value: StatementValue,
}

/// A query held by the database.
#[derive(Debug)]
pub struct StoredQuery {
    pub depends_on: Vec<Si>,
    pub query: Query,
}

/// The runtime database.
pub struct RTVM {
    relations: Vec<String>,
    statements: Vec<Option<Statement>>,
    queries: Vec<Option<StoredQuery>>,
}

/// Looking up the template `t` among the relation templates `rs`: the first
/// relation that has it, or a new relation after all others.
pub open spec fn relation_lookup(rs: Seq<Seq<char>>, t: Seq<char>) -> (Seq<Seq<char>>, int) {
    match rs.index_of_first(t) {
        Some(i) => (rs, i),
        None => (rs.push(t), rs.len() as int),
    }
}

impl RTVM {
    /// The templates of the relations, by relation number.
    pub closed spec fn relations_view(&self) -> Seq<Seq<char>> {
        self.relations@.map_values(|t: String| t@)
    }

    /// The statement slots, by statement number.
    pub closed spec fn statements_view(&self) -> Seq<Option<Statement>> {
        self.statements@
    }

    /// The query slots, by query number.
    pub closed spec fn queries_view(&self) -> Seq<Option<StoredQuery>> {
        self.queries@
    }

    /// The relation whose template is `template`: the first one that has it.
    pub fn get_relation(&self, template: &str) -> (r: Option<Ri>)
        ensures
            match r {
                Some(ri) => self.relations_view().index_of_first(template@) == Some(ri.0 as int),
                None => self.relations_view().index_of_first(template@) is None,
            },
    {
        let ghost rs = self.relations_view();
        let mut i: usize = 0;
        while i < self.relations.len()
            invariant
                i <= self.relations.len(),
                rs == self.relations_view(),
                forall|j: int| 0 <= j < i ==> rs[j] != template@,
            decreases self.relations.len() - i,
        {
            assert(rs[i as int] == self.relations@[i as int]@);
            if str_eq(self.relations[i].as_str(), template) {
                proof {
                    rs.index_of_first_ensures(template@);
                    let k = rs.index_of_first(template@)->Some_0;
                    assert(k == i) by {
                        if k > i {
                            assert(rs[i as int] == template@);
                        }
                    }
                }
                return Some(Ri(i));
            }
            i = i + 1;
        }
        proof {
            rs.index_of_first_ensures(template@);
        }
        None
    }
}

impl RTVM {
    /// Adds a relation with the template `template`, numbered after all others.
    pub fn new_relation(&mut self, template: &str) -> (r: Ri)
        ensures
            r.0 == old(self).relations_view().len(),
            final(self).relations_view() == old(self).relations_view().push(template@),
            final(self).statements_view() == old(self).statements_view(),
            final(self).queries_view() == old(self).queries_view(),
    {
        let ghost before = self.relations_view();
        let r = Ri(self.relations.len());
        self.relations.push(template.to_owned());
        assert(self.relations_view() =~= before.push(template@));
        r
    }

    /// The relation of `template`: the first relation with that template, or a
    /// new one added after all others when there is none.
    pub fn lookup_relation(&mut self, template: &str) -> (r: Ri)
        ensures
            (final(self).relations_view(), r.0 as int) == relation_lookup(
                old(self).relations_view(),
                template@,
            ),
            final(self).statements_view() == old(self).statements_view(),
            final(self).queries_view() == old(self).queries_view(),
    {
        match self.get_relation(template) {
            Some(relation) => relation,
            None => self.new_relation(template),
        }
    }

    /// The template of relation `ri`, if there is such a relation.
    pub fn relation_template(&self, ri: Ri) -> (r: Option<&String>)
        ensures
            match r {
                Some(t) => ri.0 < self.relations_view().len() && t@ == self.relations_view()[ri.0 as int],
                None => ri.0 >= self.relations_view().len(),
            },
    {
        if ri.0 < self.relations.len() {
            Some(&self.relations[ri.0])
        } else {
            None
        }
    }

    /// Stores a statement of `relation`, numbered after all others.
    pub fn insert_statement(&mut self, depends_on: Vec<Si>, relation: Ri, value: StatementValue) -> (r: Si)
        ensures
            r.0 == old(self).statements_view().len(),
            final(self).statements_view() == old(self).statements_view().push(
                Some(Statement { depends_on, relation, value }),
            ),
            final(self).relations_view() == old(self).relations_view(),
            final(self).queries_view() == old(self).queries_view(),
    {
        let r = Si(self.statements.len());
        self.statements.push(Some(Statement { depends_on, relation, value }));
        r
    }

    /// The statement numbered `si`, unless there is none or it was redacted.
    pub fn statement(&self, si: Si) -> (r: Option<&Statement>)
        ensures
            match r {
                Some(st) => si.0 < self.statements_view().len() && self.statements_view()[si.0 as int]
                    == Some(*st),
                None => si.0 >= self.statements_view().len() || self.statements_view()[si.0 as int] is None,
            },
    {
        if si.0 < self.statements.len() {
            match &self.statements[si.0] {
                Some(st) => Some(st),
                None => None,
            }
        } else {
            None
        }
    }

    /// Removes the statement numbered `si`; its number is not given again.
    pub fn redact_statement(&mut self, stmt: Si)
        ensures
            stmt.0 < old(self).statements_view().len() ==> final(self).statements_view() == old(
                self,
            ).statements_view().update(stmt.0 as int, None),
            stmt.0 >= old(self).statements_view().len() ==> final(self).statements_view() == old(
                self,
            ).statements_view(),
            final(self).relations_view() == old(self).relations_view(),
            final(self).queries_view() == old(self).queries_view(),
    {
        if stmt.0 < self.statements.len() {
            self.statements.set(stmt.0, None);
        }
    }

    /// Stores a query, numbered after all others.
    pub fn insert_query(&mut self, depends_on: Vec<Si>, query: Query) -> (r: Qi)
        ensures
            r.0 == old(self).queries_view().len(),
            final(self).queries_view() == old(self).queries_view().push(
                Some(StoredQuery { depends_on, query }),
            ),
            final(self).relations_view() == old(self).relations_view(),
            final(self).statements_view() == old(self).statements_view(),
    {
        let r = Qi(self.queries.len());
        self.queries.push(Some(StoredQuery { depends_on, query }));
        r
    }

    /// The query numbered `qi`, unless there is none or it was redacted.
    pub fn query(&self, qi: Qi) -> (r: Option<&StoredQuery>)
        ensures
            match r {
                Some(q) => qi.0 < self.queries_view().len() && self.queries_view()[qi.0 as int] == Some(
                    *q,
                ),
                None => qi.0 >= self.queries_view().len() || self.queries_view()[qi.0 as int] is None,
            },
    {
        if qi.0 < self.queries.len() {
            match &self.queries[qi.0] {
                Some(q) => Some(q),
                None => None,
            }
        } else {
            None
        }
    }

    /// Removes the query numbered `qi`; its number is not given again.
    pub fn redact_query(&mut self, query: Qi)
        ensures
            query.0 < old(self).queries_view().len() ==> final(self).queries_view() == old(
                self,
            ).queries_view().update(query.0 as int, None),
            query.0 >= old(self).queries_view().len() ==> final(self).queries_view() == old(
                self,
            ).queries_view(),
            final(self).relations_view() == old(self).relations_view(),
            final(self).statements_view() == old(self).statements_view(),
    {
        if query.0 < self.queries.len() {
            self.queries.set(query.0, None);
        }
    }
}

impl Default for RTVM {
    fn default() -> (r: RTVM)
        ensures
            r.relations_view() == Seq::<Seq<char>>::empty(),
            r.statements_view() == Seq::<Option<Statement>>::empty(),
            r.queries_view() == Seq::<Option<StoredQuery>>::empty(),
    {
        let r = RTVM { relations: Vec::new(), statements: Vec::new(), queries: Vec::new() };
        assert(r.relations_view() =~= Seq::<Seq<char>>::empty());
        r
    }
}

/// A looked-up relation number leads back to its template, and looking the same
/// template up again gives the same number and adds nothing.
pub proof fn lemma_lookup_relation_stable(rs: Seq<Seq<char>>, t: Seq<char>)
    ensures
        ({
            let (rs1, i) = relation_lookup(rs, t);
            &&& 0 <= i < rs1.len()
            &&& rs1[i] == t
            &&& relation_lookup(rs1, t) == (rs1, i)
        }),
{
    rs.index_of_first_ensures(t);
    let (rs1, i) = relation_lookup(rs, t);
    rs1.index_of_first_ensures(t);
    if rs.contains(t) {
    } else {
        assert(rs1[rs.len() as int] == t);
        assert(rs1.contains(t));
        let k = rs1.index_of_first(t)->Some_0;
        assert(k == rs.len()) by {
            if k < rs.len() {
                assert(rs[k] == t);
            }
        }
    }
}

/// Relations looked up for different templates have different numbers.
pub proof fn lemma_lookup_relation_distinct(rs: Seq<Seq<char>>, t1: Seq<char>, t2: Seq<char>)
    requires
        t1 != t2,
    ensures
        ({
            let (rs1, i1) = relation_lookup(rs, t1);
            let (rs2, i2) = relation_lookup(rs1, t2);
            &&& rs2[i1] == t1
            &&& i1 != i2
        }),
{
    lemma_lookup_relation_stable(rs, t1);
    let (rs1, i1) = relation_lookup(rs, t1);
    lemma_lookup_relation_stable(rs1, t2);
    rs1.index_of_first_ensures(t2);
}

/// What is read back of the statement slots: an inserted statement under its new
/// number, nothing under a redacted number, and every other slot as it was.
pub proof fn lemma_statement_slots(slots: Seq<Option<Statement>>, st: Statement, k: int, j: int)
    requires
        0 <= k < slots.len(),
        0 <= j < slots.len(),
        j != k,
    ensures
        slots.push(Some(st))[slots.len() as int] == Some(st),
        slots.push(Some(st))[j] == slots[j],
        slots.update(k, None)[k] is None,
        slots.update(k, None)[j] == slots[j],
{
}

} // verus!
