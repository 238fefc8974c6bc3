//! Projects: tags, links, metadata and the rendering of descriptions.

use vstd::prelude::*;
use vstd::string::StringExecFns;

use crate::date::Date;
use crate::text::find_char;

pub use crate::catalog::{ProjectCatalog, TagGroups};

verus! {

/// Why a project or a catalog could not be put together.
#[derive(Clone, Copy, Debug, PartialEq, Eq, Structural)]
pub enum ProjectError {
    /// A tag lacks the `:` between its category and its name.
    InvalidTag,
    /// Two projects share a slug.
    DuplicateSlugs,
}

/// A named link shown on a project's page.
#[derive(Clone, Debug)]
pub struct ProjectLink {
    pub name: String,
    pub url: String,
}

impl View for ProjectLink {
    type V = (Seq<char>, Seq<char>);

    open spec fn view(&self) -> (Seq<char>, Seq<char>) {
        (self.name@, self.url@)
    }
}

/// A tag: a name within a category, written `category:name`.
#[derive(Clone, Debug, Hash)]
pub struct ProjectTag {
    pub category: String,
    pub name: String,
}

impl View for ProjectTag {
    type V = (Seq<char>, Seq<char>);

    open spec fn view(&self) -> (Seq<char>, Seq<char>) {
        (self.category@, self.name@)
    }
}

impl PartialEq for ProjectTag {
    fn eq(&self, other: &ProjectTag) -> (r: bool) {
        self.category == other.category && self.name == other.name
    }
}

impl vstd::std_specs::cmp::PartialEqSpecImpl for ProjectTag {
    open spec fn obeys_eq_spec() -> bool {
        true
    }

    open spec fn eq_spec(&self, other: &ProjectTag) -> bool {
        self@ == other@
    }
}

impl Eq for ProjectTag {

}

/// The category and name of the tag text `s`: the parts before and after
/// its first `:`, or none if it has no `:`.
pub open spec fn tag_parts(s: Seq<char>) -> Option<(Seq<char>, Seq<char>)> {
    let i = find_char(s, ':', 0);
    if i < s.len() {
        Some((s.subrange(0, i), s.subrange(i + 1, s.len() as int)))
    } else {
        None
    }
}

impl ProjectTag {
    /// Parses `category:name`, splitting at the first `:`.
    pub fn parse(s: &str) -> (r: Result<ProjectTag, ProjectError>)
        ensures
            match tag_parts(s@) {
                Some(parts) => r matches Ok(t) && t@ == parts,
                None => r == Err::<ProjectTag, ProjectError>(ProjectError::InvalidTag),
            },
    {
        let n = s.unicode_len();
        let mut i: usize = 0;
        while i < n
            invariant
                n == s@.len(),
                i <= n,
                find_char(s@, ':', 0) == find_char(s@, ':', i as int),
            decreases n - i,
        {
            if s.get_char(i) == ':' {
                assert(find_char(s@, ':', i as int) == i);
                let category = String::from_str(s.substring_char(0, i));
                let name = String::from_str(s.substring_char(i + 1, n));
                return Ok(ProjectTag { category, name });
            }
            i = i + 1;
        }
        Err(ProjectError::InvalidTag)
    }

    /// The tag as `category:name`.
    pub fn to_string(&self) -> (r: String)
        ensures
            r@ == self.category@ + ":"@ + self.name@,
    {
        let mut out = self.category.clone();
        out.append(":");
        out.append(self.name.as_str());
        out
    }

    /// A copy of the tag.
    pub fn duplicate(&self) -> (r: ProjectTag)
        ensures
            r@ == self@,
    {
        ProjectTag { category: self.category.clone(), name: self.name.clone() }
    }
}

/// What a project's description says about it.
#[derive(Clone, Debug)]
pub struct ProjectMetadata {
    pub title: String,
    pub slug: String,
    pub links: Vec<ProjectLink>,
    pub github: Option<String>,
    pub code_languages: Vec<String>,
    pub math: bool,
    pub start: Date,
    pub end: Option<Date>,
    /// The tags as written, before parsing.
    pub tags_raw: Vec<String>,
    pub tags: Vec<ProjectTag>,
}

/// Whether a project renders mathematics when its description does not say.
pub fn default_math() -> (r: bool)
    ensures
        r == false,
{
    false
}

/// The views of a run of links.
pub open spec fn link_views(links: Seq<ProjectLink>) -> Seq<(Seq<char>, Seq<char>)> {
    links.map_values(|l: ProjectLink| l@)
}

/// The views of a run of tags.
pub open spec fn tag_views(tags: Seq<ProjectTag>) -> Seq<(Seq<char>, Seq<char>)> {
    tags.map_values(|t: ProjectTag| t@)
}

/// Every written tag has a `:`.
pub open spec fn all_tags_parse(raw: Seq<String>) -> bool {
    forall|i: int| 0 <= i < raw.len() ==> (#[trigger] tag_parts(raw[i]@)) is Some
}

/// The written tags, parsed.
pub open spec fn parsed_tags(raw: Seq<String>) -> Seq<(Seq<char>, Seq<char>)> {
    raw.map_values(|s: String| tag_parts(s@)->Some_0)
}

/// The links a project shows: its GitHub repository first, if it has one.
pub open spec fn shown_links(m: ProjectMetadata) -> Seq<(Seq<char>, Seq<char>)> {
    match m.github {
        Some(g) => seq![("github"@, g@)] + link_views(m.links@),
        None => link_views(m.links@),
    }
}

/// The HTML that the Markdown text `md` renders to.
pub uninterp spec fn markdown_html(md: Seq<char>) -> Seq<char>;

/// `html` with every anchor opening its link in a new tab.
pub uninterp spec fn anchors_in_new_tab(html: Seq<char>) -> Seq<char>;

/// Relies on comrak's `markdown_to_html`, with raw HTML kept, smart
/// punctuation and strikethrough: the HTML depends on the text alone.
#[verifier::external_body]
fn render_markdown(md: &str) -> (r: String)
    ensures
        r@ == markdown_html(md@),
{
    let mut options = comrak::Options::default();
    options.render.unsafe_ = true;
    options.parse.smart = true;
    options.extension.strikethrough = true;
    comrak::markdown_to_html(md, &options)
}

/// Relies on regex's `Regex::replace_all`, rewriting each `<a` followed by
/// white space and `href` to `<a target="_blank" href`: the result depends
/// on the text alone.
#[verifier::external_body]
fn open_links_in_new_tab(html: &str) -> (r: String)
    ensures
        r@ == anchors_in_new_tab(html@),
{
    let anchor = regex::Regex::new(r"<a\s+href").unwrap();
    anchor.replace_all(html, "<a target=\"_blank\" href").to_string()
}

/// A project: its metadata, its description in Markdown and as HTML.
#[derive(Clone, Debug)]
pub struct Project {
    pub metadata: ProjectMetadata,
    pub body_md: String,
    pub body_html: String,
}

impl Project {
    /// Puts a project together from its metadata and Markdown description:
    /// adds the GitHub link, parses the tags and renders the description.
    pub fn from_parts(metadata: ProjectMetadata, body_md: String) -> (r: Result<Project, ProjectError>)
        ensures
            match r {
                Ok(p) => {
                    &&& all_tags_parse(metadata.tags_raw@)
                    &&& p.metadata.title == metadata.title
                    &&& p.metadata.slug == metadata.slug
                    &&& p.metadata.github == metadata.github
                    &&& p.metadata.code_languages == metadata.code_languages
                    &&& p.metadata.math == metadata.math
                    &&& p.metadata.start == metadata.start
                    &&& p.metadata.end == metadata.end
                    &&& p.metadata.tags_raw == metadata.tags_raw
                    &&& link_views(p.metadata.links@) == shown_links(metadata)
                    &&& tag_views(p.metadata.tags@) == tag_views(metadata.tags@) + parsed_tags(
                        metadata.tags_raw@,
                    )
                    &&& p.body_md == body_md
                    &&& p.body_html@ == anchors_in_new_tab(markdown_html(body_md@))
                },
                Err(e) => !all_tags_parse(metadata.tags_raw@) && e == ProjectError::InvalidTag,
            },
    {
        let ghost m0 = metadata;
        let mut meta = metadata;
        let github_link = match &meta.github {
            Some(g) => {
                proof {
                    reveal_strlit("github");
                }
                Some(ProjectLink { name: String::from_str("github"), url: g.clone() })
            },
            None => None,
        };
        if let Some(link) = github_link {
            meta.links.insert(0, link);
        }
        assert(link_views(meta.links@) =~= shown_links(m0));
        let n = meta.tags_raw.len();
        let mut i: usize = 0;
        while i < n
            invariant
                m0 == metadata,
                n == m0.tags_raw@.len(),
                i <= n,
                meta.tags_raw == m0.tags_raw,
                meta.title == m0.title,
                meta.slug == m0.slug,
                meta.github == m0.github,
                meta.code_languages == m0.code_languages,
                meta.math == m0.math,
                meta.start == m0.start,
                meta.end == m0.end,
                link_views(meta.links@) == shown_links(m0),
                forall|j: int| 0 <= j < i ==> (#[trigger] tag_parts(m0.tags_raw@[j]@)) is Some,
                tag_views(meta.tags@) == tag_views(m0.tags@) + parsed_tags(
                    m0.tags_raw@.subrange(0, i as int),
                ),
            decreases n - i,
        {
            let ghost raw = m0.tags_raw@[i as int]@;
            match ProjectTag::parse(meta.tags_raw[i].as_str()) {
                Ok(tag) => {
                    assert(tag_parts(raw) is Some);
                    assert(tag@ == tag_parts(raw)->Some_0);
                    let ghost before = meta.tags@;
                    meta.tags.push(tag);
                    assert(tag_views(meta.tags@) =~= tag_views(before).push(tag@));
                    assert(m0.tags_raw@.subrange(0, i as int + 1) == m0.tags_raw@.subrange(
                        0,
                        i as int,
                    ).push(m0.tags_raw@[i as int]));
                    assert(tag_views(meta.tags@) =~= tag_views(m0.tags@) + parsed_tags(
                        m0.tags_raw@.subrange(0, i as int + 1),
                    ));
                },
                Err(e) => {
                    assert(tag_parts(raw) is None);
                    assert(!all_tags_parse(m0.tags_raw@));
                    assert(e == ProjectError::InvalidTag);
                    return Err(e);
                },
            }
            i = i + 1;
        }
        assert(m0.tags_raw@.subrange(0, n as int) == m0.tags_raw@);
        let html = render_markdown(body_md.as_str());
        let body_html = open_links_in_new_tab(html.as_str());
        Ok(Project { metadata: meta, body_md, body_html })
    }
}

} // verus!
