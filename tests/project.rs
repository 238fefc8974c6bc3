use std::cmp::Ordering;

use folio::catalog::ProjectCatalog;
use folio::date::Date;
use folio::project::{default_math, Project, ProjectError, ProjectLink, ProjectMetadata, ProjectTag};

fn date(year: u16, month: Option<u16>, day: Option<u16>) -> Date {
    Date { year, month, day }
}

fn tag(category: &str, name: &str) -> ProjectTag {
    ProjectTag { category: category.to_string(), name: name.to_string() }
}

fn metadata(slug: &str, start: Date, tags: &[&str]) -> ProjectMetadata {
    ProjectMetadata {
        title: format!("Title of {}", slug),
        slug: slug.to_string(),
        links: vec![],
        github: None,
        code_languages: vec![],
        math: default_math(),
        start,
        end: None,
        tags_raw: tags.iter().map(|s| s.to_string()).collect(),
        tags: vec![],
    }
}

fn project(slug: &str, start: Date, tags: &[&str]) -> Project {
    Project {
        metadata: ProjectMetadata {
            tags: tags.iter().map(|s| ProjectTag::parse(s).unwrap()).collect(),
            ..metadata(slug, start, &[])
        },
        body_md: String::new(),
        body_html: String::new(),
    }
}

#[test]
fn tag_parses_at_first_colon() {
    assert_eq!(ProjectTag::parse("lang:rust"), Ok(tag("lang", "rust")));
    assert_eq!(ProjectTag::parse("a:b:c"), Ok(tag("a", "b:c")));
    assert_eq!(ProjectTag::parse(":x"), Ok(tag("", "x")));
    assert_eq!(ProjectTag::parse("plain"), Err(ProjectError::InvalidTag));
    assert_eq!(ProjectTag::parse(""), Err(ProjectError::InvalidTag));
}

#[test]
fn tag_text_round_trips() {
    let t = tag("topic", "graphics");
    assert_eq!(t.to_string(), "topic:graphics");
    assert_eq!(ProjectTag::parse(&t.to_string()), Ok(t.clone()));
    assert_eq!(t.duplicate(), t);
}

#[test]
fn date_text_leaves_out_unknown_parts() {
    assert_eq!(date(2021, Some(3), Some(5)).to_string(), "5 mar 2021");
    assert_eq!(date(2021, Some(12), None).to_string(), "dec 2021");
    assert_eq!(date(1999, None, None).to_string(), "1999");
    assert_eq!(date(2000, Some(13), None).to_string(), " 2000");
}

#[test]
fn dates_order_chronologically() {
    let d = |y, m, dd| date(y, m, dd);
    assert_eq!(d(2020, None, None).compare(&d(2021, None, None)), Ordering::Less);
    assert_eq!(d(2021, Some(2), None).compare(&d(2021, Some(1), Some(30))), Ordering::Greater);
    assert_eq!(d(2021, Some(2), None).compare(&d(2021, None, None)), Ordering::Greater);
    assert_eq!(d(2021, Some(2), Some(1)).compare(&d(2021, Some(2), None)), Ordering::Greater);
    assert_eq!(d(2021, Some(2), Some(1)).compare(&d(2021, Some(2), Some(9))), Ordering::Less);
    assert_eq!(d(2021, None, Some(4)).compare(&d(2021, None, Some(9))), Ordering::Equal);
    assert!(d(2019, Some(5), None) < d(2020, None, None));
}

#[test]
fn project_parts_add_github_link_and_tags() {
    let mut m = metadata("demo", date(2020, None, None), &["lang:rust", "topic:web"]);
    m.github = Some("https://example.org/demo".to_string());
    m.links = vec![ProjectLink { name: "docs".to_string(), url: "https://docs".to_string() }];
    m.tags = vec![tag("kind", "tool")];
    let p = Project::from_parts(m, "Hello *world*".to_string()).unwrap();
    let links: Vec<(String, String)> =
        p.metadata.links.iter().map(|l| (l.name.clone(), l.url.clone())).collect();
    assert_eq!(
        links,
        vec![
            ("github".to_string(), "https://example.org/demo".to_string()),
            ("docs".to_string(), "https://docs".to_string()),
        ]
    );
    assert_eq!(p.metadata.tags, vec![tag("kind", "tool"), tag("lang", "rust"), tag("topic", "web")]);
    assert_eq!(p.body_md, "Hello *world*");
    assert!(p.body_html.contains("<em>world</em>"));
}

#[test]
fn project_links_open_in_new_tab() {
    let m = metadata("links", date(2020, None, None), &[]);
    let p = Project::from_parts(m, "[site](https://example.org)".to_string()).unwrap();
    assert!(p.body_html.contains("<a target=\"_blank\" href=\"https://example.org\">site</a>"));
}

#[test]
fn project_with_bad_tag_is_refused() {
    let m = metadata("bad", date(2020, None, None), &["lang:rust", "oops"]);
    assert_eq!(Project::from_parts(m, String::new()).err(), Some(ProjectError::InvalidTag));
}

#[test]
fn catalog_orders_newest_first_and_stably() {
    let projects = vec![
        project("old", date(2018, None, None), &[]),
        project("new", date(2022, Some(4), None), &[]),
        project("same-a", date(2020, None, None), &[]),
        project("same-b", date(2020, None, None), &[]),
    ];
    let catalog = ProjectCatalog::load(projects).unwrap();
    let slugs: Vec<&str> = catalog.projects.iter().map(|p| p.metadata.slug.as_str()).collect();
    assert_eq!(slugs, vec!["new", "same-a", "same-b", "old"]);
}

#[test]
fn catalog_refuses_duplicate_slugs() {
    let projects = vec![
        project("x", date(2018, None, None), &[]),
        project("y", date(2019, None, None), &[]),
        project("x", date(2020, None, None), &[]),
    ];
    assert_eq!(ProjectCatalog::load(projects).err(), Some(ProjectError::DuplicateSlugs));
}

#[test]
fn catalog_groups_tags_by_category() {
    let projects = vec![
        project("a", date(2021, None, None), &["lang:rust", "topic:web", "lang:go"]),
        project("b", date(2020, None, None), &["lang:go", "area:ml"]),
        project("c", date(2019, None, None), &["lang:c", "topic:cli", "topic:web"]),
    ];
    let catalog = ProjectCatalog::load(projects).unwrap();
    let groups: Vec<(String, Vec<String>)> = catalog
        .tag_groups
        .iter()
        .map(|(c, tags)| (c.clone(), tags.iter().map(|t| t.name.clone()).collect()))
        .collect();
    assert_eq!(
        groups,
        vec![
            ("lang".to_string(), vec!["go".to_string(), "rust".to_string(), "c".to_string()]),
            ("topic".to_string(), vec!["web".to_string(), "cli".to_string()]),
            ("area".to_string(), vec!["ml".to_string()]),
        ]
    );
}

#[test]
fn catalog_summary_lists_projects_and_tags() {
    let projects = vec![
        project("a", date(2021, None, None), &["lang:rust", "topic:web", "lang:go"]),
        project("b", date(2020, None, None), &["lang:go"]),
    ];
    let catalog = ProjectCatalog::load(projects).unwrap();
    assert_eq!(catalog.summary(), "ProjectCatalog { 2 projects, tags: lang:[go|rust], topic:[web] }");
    let empty = ProjectCatalog::load(vec![]).unwrap();
    assert_eq!(empty.summary(), "ProjectCatalog { 0 projects, tags:  }");
}

#[test]
fn catalog_finds_by_slug() {
    let projects = vec![
        project("a", date(2021, None, None), &[]),
        project("b", date(2020, None, None), &[]),
    ];
    let catalog = ProjectCatalog::load(projects).unwrap();
    assert_eq!(catalog.find("b").map(|p| p.metadata.start), Some(date(2020, None, None)));
    assert!(catalog.find("zzz").is_none());
}
