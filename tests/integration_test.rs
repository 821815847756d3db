use rusty_foil::clause::{Clause, ClauseLiteral, ClauseVariable, RefinementOptions, ValueComparator};
use rusty_foil::language::{
    categorical_labels, AttributeValue, HypothesisLanguage, LanguageDiscoveryOption, Schema,
    SchemaError, SchemaType, TypeKind,
};

fn entity(label: &str) -> SchemaType {
    SchemaType::new(TypeKind::Entity, label.to_owned())
}

fn relation(label: &str) -> SchemaType {
    SchemaType::new(TypeKind::Relation, label.to_owned())
}

fn role(label: &str) -> SchemaType {
    SchemaType::new(TypeKind::Role, label.to_owned())
}

fn attribute(label: &str) -> SchemaType {
    SchemaType::new(TypeKind::Attribute, label.to_owned())
}

fn edge(a: SchemaType, b: SchemaType) -> (SchemaType, SchemaType) {
    (a, b)
}

// The edges that the database lists for this schema:
//   entity person, owns name, owns age, plays employment:employee,
//     plays parenthood:parent, plays parenthood:child;
//   entity company, owns company-name, plays employment:employer;
//   attribute name; attribute age; attribute company-name, sub name;
//   relation parenthood, relates parent, relates child;
//   relation employment, relates employer, relates employee;
fn test_schema_edges(
    values: Vec<(SchemaType, AttributeValue)>,
) -> Result<HypothesisLanguage, SchemaError> {
    let owns = vec![
        edge(entity("person"), attribute("name")),
        edge(entity("person"), attribute("age")),
        edge(entity("company"), attribute("company-name")),
    ];
    let relates = vec![
        edge(relation("parenthood"), role("parenthood:parent")),
        edge(relation("parenthood"), role("parenthood:child")),
        edge(relation("employment"), role("employment:employer")),
        edge(relation("employment"), role("employment:employee")),
    ];
    let plays = vec![
        edge(entity("person"), role("employment:employee")),
        edge(entity("person"), role("parenthood:parent")),
        edge(entity("person"), role("parenthood:child")),
        edge(entity("company"), role("employment:employer")),
    ];
    let mut sub = Vec::new();
    for t in [entity("person"), entity("company"), relation("parenthood"), relation("employment")] {
        sub.push(edge(t.clone(), t));
    }
    for t in [attribute("name"), attribute("age"), attribute("company-name")] {
        sub.push(edge(t.clone(), t));
    }
    sub.push(edge(attribute("company-name"), attribute("name")));
    let schema = Schema::from_edges(&owns, &relates, &plays, &sub, &values)?;
    Ok(HypothesisLanguage { schema })
}

fn test_language() -> HypothesisLanguage {
    test_schema_edges(Vec::new()).unwrap()
}

fn contains(map: &rusty_foil::language::TypeMap, key: &str, value: &str) -> bool {
    map.get(key).map(|s| s.contains(value)).unwrap_or(false)
}

fn texts(clauses: &[Clause]) -> Vec<String> {
    clauses.iter().map(|c| c.to_typeql()).collect()
}

fn variables(literal: &ClauseLiteral) -> Vec<String> {
    match literal {
        ClauseLiteral::Has { owner, attribute, .. } => vec![owner.0.clone(), attribute.0.clone()],
        ClauseLiteral::HasValue { owner, .. } => vec![owner.0.clone()],
        ClauseLiteral::Links { relation, player, .. } => vec![relation.0.clone(), player.0.clone()],
        ClauseLiteral::Isa { instance, .. } => vec![instance.0.clone()],
        ClauseLiteral::CompareVariables { lhs, rhs, .. } => vec![lhs.0.clone(), rhs.0.clone()],
        ClauseLiteral::CompareConstant { lhs, .. } => vec![lhs.0.clone()],
    }
}

#[test]
fn test_fetch_schema_from_typedb() {
    let language = test_language();
    assert!(contains(&language.schema.owns, "person", "name"));
    assert!(contains(&language.schema.owns, "person", "age"));
    assert!(contains(&language.schema.relates, "parenthood", "parenthood:parent"));
    assert!(contains(&language.schema.related_by, "parenthood:child", "parenthood"));
    assert!(contains(&language.schema.plays, "person", "parenthood:parent"));
    assert!(contains(&language.schema.players, "parenthood:child", "person"));
}

#[test]
fn test_refinement() {
    let language = test_language();
    let person_type = language.schema.owns.find_key("person").unwrap();
    let start = Clause::new_from_isa(person_type.clone(), &language.schema);
    let refined = start.refine(&language);
    for r in &refined {
        println!("{}", r.to_typeql());
    }
    assert_eq!(refined.len(), language.schema.plays.get("person").unwrap().len());
}

#[test]
fn schema_indexes_both_directions() {
    let language = test_language();
    let schema = &language.schema;
    assert!(contains(&schema.owners, "name", "person"));
    assert!(contains(&schema.owners, "company-name", "company"));
    assert!(!contains(&schema.owns, "company", "name"));
    assert!(contains(&schema.players, "employment:employer", "company"));
    assert!(contains(&schema.subtypes, "name", "company-name"));
    assert!(contains(&schema.subtypes, "name", "name"));
    assert!(schema.owns.get("employment").is_none());
}

#[test]
fn type_sets_are_sorted_by_label() {
    let language = test_language();
    let plays = language.schema.plays.get("person").unwrap();
    let labels: Vec<&str> = (0..plays.len()).map(|i| plays.get(i).label()).collect();
    assert_eq!(labels, vec!["employment:employee", "parenthood:child", "parenthood:parent"]);
}

#[test]
fn role_without_relation_is_refused() {
    let owns = Vec::new();
    let relates = vec![edge(relation("parenthood"), role("parenthood:parent"))];
    let plays = vec![
        edge(entity("person"), role("parenthood:parent")),
        edge(entity("person"), role("friendship:friend")),
    ];
    let sub = Vec::new();
    match Schema::from_edges(&owns, &relates, &plays, &sub, &Vec::new()) {
        Err(SchemaError::RoleWithoutRelation { role }) => assert_eq!(role, "friendship:friend"),
        other => panic!("unexpected: {:?}", other.map(|_| ())),
    }
}

#[test]
fn role_without_player_is_refused() {
    let owns = Vec::new();
    let relates = vec![
        edge(relation("parenthood"), role("parenthood:parent")),
        edge(relation("parenthood"), role("parenthood:child")),
    ];
    let plays = vec![edge(entity("person"), role("parenthood:parent"))];
    let sub = Vec::new();
    match Schema::from_edges(&owns, &relates, &plays, &sub, &Vec::new()) {
        Err(SchemaError::RoleWithoutPlayer { role }) => assert_eq!(role, "parenthood:child"),
        other => panic!("unexpected: {:?}", other.map(|_| ())),
    }
}

#[test]
fn initial_clause_renders_as_isa() {
    let language = test_language();
    let person = language.lookup_type("person").unwrap();
    let start = Clause::new_from_isa(person, &language.schema);
    assert_eq!(start.to_typeql(), "$instance_0 isa person");
    assert_eq!(start.len(), 1);
    let types = start.variable_types("instance_0").unwrap();
    assert_eq!(types.len(), 1);
    assert!(types.contains("person"));
}

#[test]
fn refinement_adds_one_played_role_each() {
    let language = test_language();
    let person = language.lookup_type("person").unwrap();
    let start = Clause::new_from_isa(person, &language.schema);
    let refined = start.refine(&language);
    assert_eq!(
        texts(&refined),
        vec![
            "$instance_0 isa person;\n$employment__employee_1_rel links (employee: $instance_0)",
            "$instance_0 isa person;\n$parenthood__child_1_rel links (child: $instance_0)",
            "$instance_0 isa person;\n$parenthood__parent_1_rel links (parent: $instance_0)",
        ]
    );
    let employment = refined[0].variable_types("employment__employee_1_rel").unwrap();
    assert_eq!(employment.len(), 1);
    assert!(employment.contains("employment"));
    let parenthood = refined[2].variable_types("parenthood__parent_1_rel").unwrap();
    assert_eq!(parenthood.len(), 1);
    assert!(parenthood.contains("parenthood"));
}

#[test]
fn refinement_is_deterministic() {
    let language = test_language();
    let person = language.lookup_type("person").unwrap();
    let start = Clause::new_from_isa(person, &language.schema);
    let a = texts(&start.refine(&language));
    let b = texts(&start.refine(&language));
    assert_eq!(a, b);
    let second_a: Vec<Vec<String>> = start.refine(&language).iter().map(|c| texts(&c.refine(&language))).collect();
    let second_b: Vec<Vec<String>> = start.refine(&language).iter().map(|c| texts(&c.refine(&language))).collect();
    assert_eq!(second_a, second_b);
}

#[test]
fn refined_variables_have_types() {
    let language = test_language();
    let person = language.lookup_type("person").unwrap();
    let start = Clause::new_from_isa(person, &language.schema);
    let mut frontier = vec![start];
    for _ in 0..2 {
        let mut next = Vec::new();
        for c in &frontier {
            for r in c.refine(&language) {
                assert_eq!(r.len(), c.len() + 1);
                for literal in r.literals() {
                    for v in variables(literal) {
                        let types = r.variable_types(&v).unwrap();
                        assert!(!types.is_empty());
                    }
                }
                next.push(r);
            }
        }
        frontier = next;
    }
    assert!(!frontier.is_empty());
}

#[test]
fn relation_refinement_adds_player() {
    let language = test_language();
    let parenthood = language.lookup_type("parenthood").unwrap();
    let start = Clause::new_from_isa(parenthood, &language.schema);
    let refined = start.refine(&language);
    assert_eq!(
        texts(&refined),
        vec![
            "$instance_0 isa parenthood;\n$instance_0 links (child: $parenthood__child_1)",
            "$instance_0 isa parenthood;\n$instance_0 links (parent: $parenthood__parent_1)",
        ]
    );
    let players = refined[0].variable_types("parenthood__child_1").unwrap();
    assert_eq!(players.len(), 1);
    assert!(players.contains("person"));
}

#[test]
fn rendered_patterns_parse() {
    let language = test_language();
    let person = language.lookup_type("person").unwrap();
    let start = Clause::new_from_isa(person, &language.schema);
    let mut clauses = vec![start];
    let refined = clauses[0].refine(&language);
    for r in &refined {
        clauses.extend(r.refine(&language));
    }
    clauses.extend(refined);
    for c in &clauses {
        let query = format!("match {}; select $instance_0;", c.to_typeql());
        assert!(typeql::parse_query(&query).is_ok(), "{}", query);
    }
}

#[test]
fn isa_narrows_to_subtypes() {
    let owns = Vec::new();
    let relates = Vec::new();
    let plays = Vec::new();
    let sub = vec![
        edge(entity("animal"), entity("animal")),
        edge(entity("cat"), entity("cat")),
        edge(entity("dog"), entity("dog")),
        edge(entity("cat"), entity("animal")),
        edge(entity("dog"), entity("animal")),
    ];
    let schema = Schema::from_edges(&owns, &relates, &plays, &sub, &Vec::new()).unwrap();
    let language = HypothesisLanguage { schema };
    let animal = language.lookup_type("animal").unwrap();
    let start = Clause::new_from_isa(animal, &language.schema);
    assert_eq!(start.variable_types("instance_0").unwrap().len(), 3);
    let refined = start.refine(&language);
    assert_eq!(
        texts(&refined),
        vec![
            "$instance_0 isa animal;\n$instance_0 isa animal",
            "$instance_0 isa animal;\n$instance_0 isa cat",
            "$instance_0 isa animal;\n$instance_0 isa dog",
        ]
    );
    let cat = refined[1].variable_types("instance_0").unwrap();
    assert_eq!(cat.len(), 1);
    assert!(cat.contains("cat"));
    assert_eq!(refined[0].variable_types("instance_0").unwrap().len(), 3);
}

#[test]
fn categorical_values_become_refinements() {
    let values = vec![
        (attribute("name"), AttributeValue { literal: "\"alice\"".to_owned() }),
        (attribute("age"), AttributeValue { literal: "42".to_owned() }),
        (attribute("name"), AttributeValue { literal: "\"bob\"".to_owned() }),
    ];
    let language = test_schema_edges(values).unwrap();
    let person = language.lookup_type("person").unwrap();
    let start = Clause::new_from_isa(person, &language.schema);
    let refined = texts(&start.refine(&language));
    assert_eq!(refined.len(), 6);
    assert_eq!(refined[0], "$instance_0 isa person;\n$instance_0 has age 42");
    assert_eq!(refined[1], "$instance_0 isa person;\n$instance_0 has name \"alice\"");
    assert_eq!(refined[2], "$instance_0 isa person;\n$instance_0 has name \"bob\"");
}

#[test]
fn attribute_ownership_and_comparisons_render() {
    let language = test_language();
    let person = language.lookup_type("person").unwrap();
    let start = Clause::new_from_isa(person, &language.schema);
    let name = language.lookup_type("name").unwrap();
    let owner = ClauseVariable::instance();
    let with_name = start.extend_with_has(&owner, &name, &language.schema);
    assert_eq!(with_name.to_typeql(), "$instance_0 isa person;\n$instance_0 has name $name_1");
    assert!(with_name.variable_types("name_1").unwrap().contains("name"));
    let attr = ClauseVariable("name_1".to_owned());
    let compared = with_name.extend_with_comparison(&owner, ValueComparator::Neq, &attr);
    assert!(compared.to_typeql().ends_with("$instance_0 != $name_1"));
    let equal = with_name.extend_with_eq(&attr, &AttributeValue { literal: "\"alice\"".to_owned() });
    assert!(equal.to_typeql().ends_with("$name_1 == \"alice\""));
    for cmp in [ValueComparator::Eq, ValueComparator::Lte, ValueComparator::Gte] {
        let c = with_name.extend_with_comparison(&attr, cmp, &attr);
        let query = format!("match {}; select $instance_0;", c.to_typeql());
        assert!(typeql::parse_query(&query).is_ok(), "{}", query);
    }
}

#[test]
fn clause_renders_with_indent() {
    let language = test_language();
    let person = language.lookup_type("person").unwrap();
    let role_type = language.schema.plays.get("person").unwrap().get(2).clone();
    let mut start = Clause::new_from_isa(person, &language.schema);
    start = start.extend_with_played_links(&ClauseVariable::instance(), &role_type, &language.schema);
    assert!(start.has_variable("parenthood__parent_1_rel"));
    assert_eq!(
        start.fmt_with_indent(1),
        "  $instance_0 isa person;\n  $parenthood__parent_1_rel links (parent: $instance_0)\n"
    );
}

#[test]
fn repeated_edges_give_one_member() {
    let owns = vec![
        edge(entity("person"), attribute("name")),
        edge(entity("person"), attribute("name")),
        edge(entity("person"), attribute("age")),
    ];
    let schema = Schema::from_edges(&owns, &Vec::new(), &Vec::new(), &Vec::new(), &Vec::new()).unwrap();
    let owned = schema.owns.get("person").unwrap();
    assert_eq!(owned.len(), 2);
    assert_eq!(owned.get(0).label(), "age");
    assert_eq!(owned.get(1).label(), "name");
    assert_eq!(schema.owners.get("name").unwrap().len(), 1);
}

#[test]
fn categorical_labels_follow_options() {
    let options = vec![
        LanguageDiscoveryOption::CategoricalAttributes { type_labels: vec!["colour".to_owned(), "shape".to_owned()] },
        LanguageDiscoveryOption::CategoricalAttributes { type_labels: Vec::new() },
        LanguageDiscoveryOption::CategoricalAttributes { type_labels: vec!["size".to_owned()] },
    ];
    assert_eq!(categorical_labels(&options), vec!["colour", "shape", "size"]);
    assert!(categorical_labels(&Vec::new()).is_empty());
}

#[test]
fn attribute_ownership_refinements_when_asked() {
    let language = test_language();
    let person = language.lookup_type("person").unwrap();
    let start = Clause::new_from_isa(person, &language.schema);
    let opts = RefinementOptions { attribute_ownership: true, variable_comparisons: false };
    let refined = texts(&start.refine_with(&language, opts));
    assert_eq!(refined.len(), 5);
    assert_eq!(refined[0], "$instance_0 isa person;\n$instance_0 has age $age_1");
    assert_eq!(refined[1], "$instance_0 isa person;\n$instance_0 has name $name_1");
    assert_eq!(refined[2], "$instance_0 isa person;\n$employment__employee_1_rel links (employee: $instance_0)");
}

#[test]
fn comparisons_of_variables_sharing_a_type() {
    let language = test_language();
    let parenthood = language.lookup_type("parenthood").unwrap();
    let start = Clause::new_from_isa(parenthood, &language.schema);
    let child = language.schema.relates.get("parenthood").unwrap().get(0).clone();
    let parent = language.schema.relates.get("parenthood").unwrap().get(1).clone();
    let rel = ClauseVariable::instance();
    let c = start
        .extend_with_related_links(&rel, &child, &language.schema)
        .extend_with_related_links(&rel, &parent, &language.schema);
    assert!(c.has_variable("parenthood__child_1") && c.has_variable("parenthood__parent_2"));
    let opts = RefinementOptions { attribute_ownership: false, variable_comparisons: true };
    let with = texts(&c.refine_with(&language, opts));
    let without = texts(&c.refine(&language));
    assert_eq!(with.len(), without.len() + 4);
    assert_eq!(&with[..without.len()], &without[..]);
    let tails: Vec<&str> = with[without.len()..].iter().map(|t| t.rsplit(";\n").next().unwrap()).collect();
    assert_eq!(
        tails,
        vec![
            "$parenthood__child_1 == $parenthood__parent_2",
            "$parenthood__child_1 != $parenthood__parent_2",
            "$parenthood__child_1 <= $parenthood__parent_2",
            "$parenthood__child_1 >= $parenthood__parent_2",
        ]
    );
    for t in &with {
        let query = format!("match {}; select $instance_0;", t);
        assert!(typeql::parse_query(&query).is_ok(), "{}", query);
    }
}

#[test]
fn repeated_categorical_values_count_once() {
    let values = vec![
        (attribute("name"), AttributeValue { literal: "\"alice\"".to_owned() }),
        (attribute("name"), AttributeValue { literal: "\"alice\"".to_owned() }),
        (attribute("name"), AttributeValue { literal: "\"bob\"".to_owned() }),
        (attribute("name"), AttributeValue { literal: "\"alice\"".to_owned() }),
    ];
    let language = test_schema_edges(values).unwrap();
    let stored = language.schema.categorical_attribute_values.get("name").unwrap();
    let literals: Vec<&str> = stored.iter().map(|v| v.literal.as_str()).collect();
    assert_eq!(literals, vec!["\"alice\"", "\"bob\""]);
    let person = language.lookup_type("person").unwrap();
    let start = Clause::new_from_isa(person, &language.schema);
    let refined = texts(&start.refine(&language));
    assert_eq!(refined.len(), 5);
    assert_eq!(refined[0], "$instance_0 isa person;\n$instance_0 has name \"alice\"");
    assert_eq!(refined[1], "$instance_0 isa person;\n$instance_0 has name \"bob\"");
}
