use talk_protocol::rtvm::{Query, QueryPlaceholder, QueryStatement, Qi, Ri, Si, StatementValue, RTVM};
use talk_protocol::value::text;

#[test]
fn lookup_relation_gives_one_number_per_template() {
    let mut rt = RTVM::default();
    let rel = rt.lookup_relation("_ claims _ blahblahblah.");
    let rel2 = rt.lookup_relation("_ claims _ blahblahblah.");
    let other = rt.lookup_relation("_ claims _ points _ at _.");
    assert_eq!(rel, Ri(0));
    assert_eq!(rel2, rel);
    assert_eq!(other, Ri(1));
    assert_eq!(rt.relation_template(other).unwrap(), "_ claims _ points _ at _.");
    assert!(rt.relation_template(Ri(2)).is_none());
    assert_eq!(rt.get_relation("_ claims _ points _ at _."), Some(Ri(1)));
    assert_eq!(rt.get_relation("nothing"), None);
}

#[test]
fn new_relation_always_adds() {
    let mut rt = RTVM::default();
    assert_eq!(rt.new_relation("a"), Ri(0));
    assert_eq!(rt.new_relation("a"), Ri(1));
    assert_eq!(rt.lookup_relation("a"), Ri(0));
}

#[test]
fn statements_are_inserted_and_redacted() {
    let mut rt = RTVM::default();
    let rel = rt.lookup_relation("_ claims _ blahblahblah.");
    let si1 = rt.insert_statement(vec![], rel, StatementValue::new(vec![text("page1"), text("page2")]));
    let si2 = rt.insert_statement(vec![si1], rel, StatementValue::new(vec![text("page2"), text("page3")]));
    assert_eq!(si1, Si(0));
    assert_eq!(si2, Si(1));
    let st = rt.statement(si2).unwrap();
    assert_eq!(st.depends_on, vec![si1]);
    assert_eq!(st.relation, rel);
    assert!(st.value.0[0] == text("page2"));
    rt.redact_statement(si1);
    assert!(rt.statement(si1).is_none());
    assert!(rt.statement(si2).is_some());
    rt.redact_statement(Si(7));
    assert!(rt.statement(Si(7)).is_none());
    let si3 = rt.insert_statement(vec![], rel, StatementValue::new(vec![]));
    assert_eq!(si3, Si(2));
}

#[test]
fn queries_are_inserted_and_redacted() {
    let mut rt = RTVM::default();
    let rel = rt.lookup_relation("_ claims _ blahblahblah.");
    let qi = rt.insert_query(
        vec![],
        Query {
            positions: 3,
            statements: vec![
                QueryStatement { relation: rel, places: vec![QueryPlaceholder::Pos(0), QueryPlaceholder::Pos(1)] },
                QueryStatement { relation: rel, places: vec![QueryPlaceholder::Pos(1), QueryPlaceholder::Pos(2)] },
            ],
        },
    );
    assert_eq!(qi, Qi(0));
    assert_eq!(rt.query(qi).unwrap().query.positions, 3);
    assert_eq!(rt.query(qi).unwrap().query.statements.len(), 2);
    rt.redact_query(qi);
    assert!(rt.query(qi).is_none());
    assert!(rt.query(Qi(5)).is_none());
}
