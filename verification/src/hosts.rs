//! The hosts-file model: an ordered list of sections, where the first
//! section is the unnamed preamble and every later section is introduced by
//! a `# SECTION <name>` marker line. Parsing splits a file's lines on
//! marker lines only; serialization writes the preamble first, then each
//! named section behind its marker. A marker whose name recurs replaces the
//! earlier section with that name, so each name owns at most one section.

use vstd::prelude::*;

use crate::text::{is_space, trimmed, trim, str_eq};

verus! {

/// Mathematical model of one section: its identifier (`None` for the
/// preamble) and its lines.
#[verifier::ext_equal]
pub struct SectionV {
    pub name: Option<Seq<char>>,
    pub lines: Seq<Seq<char>>,
}

/// One section of a hosts file.
pub struct Section {
    pub name: Option<String>,
    pub lines: Vec<String>,
}

/// A hosts file parsed into sections.
pub struct Hosts {
    sections: Vec<Section>,
}

pub open spec fn opt_view(o: Option<String>) -> Option<Seq<char>> {
    match o {
        None => None,
        Some(s) => Some(s@),
    }
}

pub open spec fn opt_str_view(o: Option<&str>) -> Option<Seq<char>> {
    match o {
        None => None,
        Some(s) => Some(s@),
    }
}

pub open spec fn lines_view(v: Seq<String>) -> Seq<Seq<char>> {
    v.map_values(|l: String| l@)
}

impl View for Section {
    type V = SectionV;

    open spec fn view(&self) -> SectionV {
        SectionV { name: opt_view(self.name), lines: lines_view(self.lines@) }
    }
}

pub open spec fn secs_view(v: Seq<Section>) -> Seq<SectionV> {
    v.map_values(|s: Section| s@)
}

impl View for Hosts {
    type V = Seq<SectionV>;

    closed spec fn view(&self) -> Seq<SectionV> {
        secs_view(self.sections@)
    }
}

/// The ten characters every marker line starts with.
pub open spec fn marker_prefix() -> Seq<char> {
    "# SECTION "@
}

/// A (trimmed) line that introduces a section: the marker prefix followed
/// by a non-empty name with no whitespace in it.
pub open spec fn is_marker_line(s: Seq<char>) -> bool {
    &&& s.len() > 10
    &&& s.subrange(0, 10) == marker_prefix()
    &&& forall|i: int| 10 <= i < s.len() ==> !is_space(s[i])
}

/// The name a marker line introduces.
pub open spec fn marker_name(s: Seq<char>) -> Seq<char> {
    s.subrange(10, s.len() as int)
}

/// The marker line written for a section named `n`.
pub open spec fn marker_line_for(n: Seq<char>) -> Seq<char> {
    marker_prefix() + n
}

/// Whether some section of `doc` has identifier `name`.
pub open spec fn has_named(doc: Seq<SectionV>, name: Option<Seq<char>>) -> bool {
    exists|i: int| 0 <= i < doc.len() && doc[i].name == name
}

/// The first index of a section with identifier `name`, or `doc.len()`
/// when there is none.
pub open spec fn find_named(doc: Seq<SectionV>, name: Option<Seq<char>>) -> int
    decreases doc.len(),
{
    if doc.len() == 0 {
        0
    } else if doc.first().name == name {
        0
    } else {
        1 + find_named(doc.drop_first(), name)
    }
}

/// What `find_named` returns: the first index whose section carries
/// `name`, or the document length when no section does.
pub proof fn lemma_find_named(doc: Seq<SectionV>, name: Option<Seq<char>>)
    ensures
        0 <= find_named(doc, name) <= doc.len(),
        has_named(doc, name) ==> find_named(doc, name) < doc.len()
            && doc[find_named(doc, name)].name == name,
        !has_named(doc, name) ==> find_named(doc, name) == doc.len(),
        forall|j: int| 0 <= j < find_named(doc, name) ==> doc[j].name != name,
    decreases doc.len(),
{
    if doc.len() == 0 {
    } else if doc.first().name == name {
    } else {
        let t = doc.drop_first();
        lemma_find_named(t, name);
        assert(forall|i: int| 0 <= i < t.len() ==> t[i] == doc[i + 1]);
        if has_named(doc, name) {
            let i = choose|i: int| 0 <= i < doc.len() && doc[i].name == name;
            assert(t[i - 1] == doc[i]);
            assert(has_named(t, name));
        }
        if has_named(t, name) {
            let i = choose|i: int| 0 <= i < t.len() && t[i].name == name;
            assert(doc[i + 1].name == name);
            assert(has_named(doc, name));
        }
        assert forall|j: int| 0 <= j < find_named(doc, name) implies doc[j].name != name by {
            if j > 0 {
                assert(t[j - 1].name != name);
                assert(doc[j] == t[j - 1]);
            }
        }
    }
}

/// The lines of the section of `doc` identified by `name`, if present.
pub open spec fn section_lines(doc: Seq<SectionV>, name: Option<Seq<char>>) -> Option<
    Seq<Seq<char>>,
> {
    if has_named(doc, name) {
        Some(doc[find_named(doc, name)].lines)
    } else {
        None
    }
}

/// `doc` with the section named `n` taken out, if one is there.
pub open spec fn remove_named(doc: Seq<SectionV>, n: Seq<char>) -> Seq<SectionV> {
    let i = find_named(doc, Some(n));
    if i < doc.len() {
        doc.remove(i)
    } else {
        doc
    }
}

/// The document of an empty file: an empty preamble and nothing else.
pub open spec fn empty_doc() -> Seq<SectionV> {
    seq![SectionV { name: None, lines: Seq::empty() }]
}

/// How one raw line extends a parsed document: a marker starts a fresh
/// section with its name (dropping any earlier section so named); any
/// other line, trimmed, joins the section currently open.
pub open spec fn parse_step(doc: Seq<SectionV>, raw: Seq<char>) -> Seq<SectionV>
    recommends
        doc.len() >= 1,
{
    let t = trimmed(raw);
    if is_marker_line(t) {
        remove_named(doc, marker_name(t)).push(
            SectionV { name: Some(marker_name(t)), lines: Seq::empty() },
        )
    } else {
        doc.update(
            doc.len() - 1,
            SectionV { name: doc.last().name, lines: doc.last().lines.push(t) },
        )
    }
}

/// The document a sequence of raw lines parses to.
pub open spec fn parse_lines(lines: Seq<Seq<char>>) -> Seq<SectionV>
    decreases lines.len(),
{
    if lines.len() == 0 {
        empty_doc()
    } else {
        parse_step(parse_lines(lines.drop_last()), lines.last())
    }
}

/// A well-formed document: the preamble sits first and no two sections
/// share an identifier.
pub open spec fn doc_wf(doc: Seq<SectionV>) -> bool {
    &&& doc.len() >= 1
    &&& doc[0].name is None
    &&& forall|i: int| 1 <= i < doc.len() ==> doc[i].name is Some
    &&& forall|i: int, j: int| 0 <= i < j < doc.len() ==> doc[i].name != doc[j].name
}

/// One parse step keeps a document well-formed.
pub proof fn lemma_parse_step_wf(doc: Seq<SectionV>, raw: Seq<char>)
    requires
        doc_wf(doc),
    ensures
        doc_wf(parse_step(doc, raw)),
        parse_step(doc, raw).len() >= 1,
{
    let t = trimmed(raw);
    if is_marker_line(t) {
        let n = marker_name(t);
        lemma_find_named(doc, Some(n));
        let i = find_named(doc, Some(n));
        let r = remove_named(doc, n);
        if i < doc.len() {
            assert(doc[i].name == Some(n));
            assert(i != 0);
            assert(forall|k: int| 0 <= k < r.len() ==> r[k] == (if k < i {
                doc[k]
            } else {
                doc[k + 1]
            }));
            assert forall|k: int| 0 <= k < r.len() implies r[k].name != Some(n) by {
                if k < i {
                    assert(doc[k].name != Some(n));
                } else {
                    assert(doc[k + 1] == r[k]);
                    assert(doc[i].name == doc[k + 1].name ==> false);
                }
            }
            assert(r[0] == doc[0]);
        } else {
            assert(forall|k: int| 0 <= k < doc.len() ==> doc[k].name != Some(n));
        }
        let out = r.push(SectionV { name: Some(n), lines: Seq::empty() });
        assert(out[0] == r[0]);
        assert(doc_wf(out));
    } else {
        let out = parse_step(doc, raw);
        assert(out.len() == doc.len());
        assert(forall|k: int| 0 <= k < out.len() ==> out[k].name == doc[k].name);
    }
}

/// Parsing yields a well-formed document.
pub proof fn lemma_parse_lines_wf(lines: Seq<Seq<char>>)
    ensures
        doc_wf(parse_lines(lines)),
    decreases lines.len(),
{
    if lines.len() == 0 {
    } else {
        lemma_parse_lines_wf(lines.drop_last());
        lemma_parse_step_wf(parse_lines(lines.drop_last()), lines.last());
    }
}

/// `doc` with the lines of the section identified by `name` replaced, or
/// with a new section appended when `name` has none yet.
pub open spec fn upsert(
    doc: Seq<SectionV>,
    name: Option<Seq<char>>,
    lines: Seq<Seq<char>>,
) -> Seq<SectionV> {
    let i = find_named(doc, name);
    if i < doc.len() {
        doc.update(i, SectionV { name, lines })
    } else {
        doc.push(SectionV { name, lines })
    }
}

/// The lines a section serializes to: its marker line (none for the
/// preamble) followed by its content lines.
pub open spec fn render_section(s: SectionV) -> Seq<Seq<char>> {
    match s.name {
        None => s.lines,
        Some(n) => seq![marker_line_for(n)] + s.lines,
    }
}

/// The lines a whole document serializes to, preamble first.
pub open spec fn render_doc(doc: Seq<SectionV>) -> Seq<Seq<char>>
    decreases doc.len(),
{
    if doc.len() == 0 {
        Seq::empty()
    } else {
        render_doc(doc.drop_last()) + render_section(doc.last())
    }
}

/// Whether `s` is a marker line, by its characters.
pub fn is_marker(s: &str) -> (b: bool)
    ensures
        b == is_marker_line(s@),
{
    proof {
        reveal_strlit("# SECTION ");
    }
    let len = s.unicode_len();
    if len <= 10 {
        return false;
    }
    let p = "# SECTION ";
    let mut i: usize = 0;
    while i < 10
        invariant
            len == s@.len(),
            len > 10,
            0 <= i <= 10,
            p@ == marker_prefix(),
            p@.len() == 10,
            forall|j: int| 0 <= j < i ==> s@[j] == p@[j],
        decreases 10 - i,
    {
        if s.get_char(i) != p.get_char(i) {
            proof {
                assert(s@.subrange(0, 10)[i as int] == s@[i as int]);
            }
            return false;
        }
        i += 1;
    }
    let mut k: usize = 10;
    while k < len
        invariant
            len == s@.len(),
            len > 10,
            10 <= k <= len,
            s@.subrange(0, 10) =~= marker_prefix(),
            forall|j: int| 10 <= j < k ==> !is_space(s@[j]),
        decreases len - k,
    {
        if crate::text::is_space_char(s.get_char(k)) {
            return false;
        }
        k += 1;
    }
    true
}

impl Hosts {
    /// A document is well-formed when its section list is.
    pub open spec fn wf(&self) -> bool {
        doc_wf(self@)
    }

    /// The first index of a section with the given identifier, or the
    /// section count when there is none.
    fn find_section(sections: &Vec<Section>, name: Option<&str>) -> (r: usize)
        ensures
            r as int == find_named(secs_view(sections@), opt_str_view(name)),
    {
        proof {
            lemma_find_named(secs_view(sections@), opt_str_view(name));
        }
        let mut i: usize = 0;
        while i < sections.len()
            invariant
                0 <= i <= sections@.len(),
                secs_view(sections@).len() == sections@.len(),
                forall|j: int| 0 <= j < i ==> secs_view(sections@)[j].name != opt_str_view(name),
                forall|j: int| 0 <= j < sections@.len()
                    ==> secs_view(sections@)[j] == sections@[j]@,
            decreases sections@.len() - i,
        {
            let hit = match (&sections[i].name, name) {
                (None, None) => true,
                (Some(a), Some(b)) => str_eq(a.as_str(), b),
                _ => false,
            };
            if hit {
                proof {
                    let doc = secs_view(sections@);
                    let target = opt_str_view(name);
                    assert(doc[i as int] == sections@[i as int]@);
                    assert(doc[i as int].name == target);
                    assert(has_named(doc, target));
                    lemma_find_named(doc, target);
                    assert(find_named(doc, target) <= i as int);
                }
                return i;
            }
            i += 1;
        }
        proof {
            lemma_find_named(secs_view(sections@), opt_str_view(name));
        }
        sections.len()
    }

    /// Parse a file's raw lines into a document. Every line is trimmed;
    /// lines before the first marker form the preamble; a malformed marker
    /// (no name, or whitespace in the name) stays ordinary content.
    pub fn parse(lines: &Vec<String>) -> (h: Hosts)
        ensures
            h@ == parse_lines(lines_view(lines@)),
            h.wf(),
    {
        let mut sections: Vec<Section> = Vec::new();
        sections.push(Section { name: None, lines: Vec::new() });
        proof {
            assert(secs_view(sections@) =~~= empty_doc());
            assert(lines_view(lines@).subrange(0, 0) =~= Seq::<Seq<char>>::empty());
        }
        let mut idx: usize = 0;
        while idx < lines.len()
            invariant
                0 <= idx <= lines@.len(),
                lines_view(lines@).len() == lines@.len(),
                secs_view(sections@) == parse_lines(lines_view(lines@).subrange(0, idx as int)),
                doc_wf(secs_view(sections@)),
                sections@.len() == secs_view(sections@).len(),
            decreases lines@.len() - idx,
        {
            let ghost prefix = lines_view(lines@).subrange(0, idx as int);
            let ghost doc0 = secs_view(sections@);
            let raw = &lines[idx];
            let t = trim(raw.as_str());
            proof {
                assert(lines_view(lines@)[idx as int] == lines@[idx as int]@);
                lemma_parse_step_wf(doc0, raw@);
            }
            if is_marker(t.as_str()) {
                let tlen = t.as_str().unicode_len();
                let name_str = t.as_str().substring_char(10, tlen).to_owned();
                proof {
                    assert(name_str@ == marker_name(t@));
                }
                let pos = Self::find_section(&sections, Some(name_str.as_str()));
                proof {
                    lemma_find_named(doc0, Some(name_str@));
                }
                if pos < sections.len() {
                    sections.remove(pos);
                    proof {
                        assert(secs_view(sections@) =~~= doc0.remove(pos as int));
                    }
                }
                sections.push(Section { name: Some(name_str), lines: Vec::new() });
                proof {
                    assert(secs_view(sections@) =~~= remove_named(doc0, marker_name(t@)).push(
                        (SectionV { name: Some(marker_name(t@)), lines: Seq::empty() }),
                    ));
                    assert(secs_view(sections@) == parse_step(doc0, raw@));
                }
            } else {
                let mut sec = sections.pop().unwrap();
                sec.lines.push(t);
                sections.push(sec);
                proof {
                    assert(lines_view(sec.lines@) =~~= doc0.last().lines.push(trimmed(raw@)));
                    assert(secs_view(sections@) =~~= doc0.update(
                        doc0.len() - 1,
                        (SectionV { name: doc0.last().name, lines: doc0.last().lines.push(
                            trimmed(raw@),
                        ) }),
                    ));
                    assert(secs_view(sections@) == parse_step(doc0, raw@));
                }
            }
            idx += 1;
            proof {
                assert(lines_view(lines@).subrange(0, idx as int).drop_last() =~= prefix);
                assert(lines_view(lines@).subrange(0, idx as int).last() == raw@);
            }
        }
        proof {
            assert(lines_view(lines@).subrange(0, lines@.len() as int) =~~= lines_view(lines@));
        }
        Hosts { sections }
    }

    /// The lines of the section identified by `name`, if that section
    /// exists.
    pub fn get_section(&self, name: Option<&str>) -> (r: Option<&Vec<String>>)
        ensures
            match r {
                Some(l) => has_named(self@, opt_str_view(name)) && lines_view(l@) == self@[
                    find_named(self@, opt_str_view(name))
                ].lines,
                None => !has_named(self@, opt_str_view(name)),
            },
    {
        proof {
            lemma_find_named(self@, opt_str_view(name));
        }
        let i = Self::find_section(&self.sections, name);
        if i < self.sections.len() {
            proof {
                assert(self@[i as int].name == opt_str_view(name));
            }
            Some(&self.sections[i].lines)
        } else {
            None
        }
    }

    /// Replace the lines of the section identified by `name`, or append a
    /// new section so identified; no other section changes.
    pub fn update_section(&mut self, name: Option<String>, entries: Vec<String>)
        requires
            old(self).wf(),
        ensures
            final(self)@ == upsert(old(self)@, opt_view(name), lines_view(entries@)),
            final(self).wf(),
    {
        proof {
            lemma_find_named(self@, opt_view(name));
        }
        let name_ref = match &name {
            None => None,
            Some(s) => Some(s.as_str()),
        };
        let i = Self::find_section(&self.sections, name_ref);
        let ghost doc0 = self@;
        if i < self.sections.len() {
            self.sections.remove(i);
            self.sections.insert(i, Section { name, lines: entries });
            proof {
                assert(secs_view(self.sections@) =~~= doc0.update(
                    i as int,
                    (SectionV { name: opt_view(name), lines: lines_view(entries@) }),
                ));
                assert(doc0[i as int].name == opt_view(name));
            }
        } else {
            self.sections.push(Section { name, lines: entries });
            proof {
                assert(secs_view(self.sections@) =~~= doc0.push(
                    (SectionV { name: opt_view(name), lines: lines_view(entries@) }),
                ));
                lemma_find_named(doc0, opt_view(name));
                if opt_view(name) is None {
                    assert(doc0[0].name == None::<Seq<char>>);
                    assert(has_named(doc0, opt_view(name)));
                    assert(false);
                }
            }
        }
    }

    /// Serialize the document back to lines: preamble first, then each
    /// named section behind its marker line.
    pub fn render_lines(&self) -> (out: Vec<String>)
        ensures
            lines_view(out@) == render_doc(self@),
    {
        let mut out: Vec<String> = Vec::new();
        proof {
            assert(lines_view(out@) =~~= render_doc(self@.subrange(0, 0)));
        }
        let mut i: usize = 0;
        while i < self.sections.len()
            invariant
                0 <= i <= self.sections@.len(),
                self@.len() == self.sections@.len(),
                lines_view(out@) == render_doc(self@.subrange(0, i as int)),
                forall|j: int| 0 <= j < self.sections@.len() ==> self@[j] == self.sections@[j]@,
            decreases self.sections@.len() - i,
        {
            let ghost prefix = self@.subrange(0, i as int);
            let ghost sec_v = self@[i as int];
            let sec = &self.sections[i];
            if let Some(n) = &sec.name {
                let mut m: String = ("# SECTION ").to_owned();
                m.append(n.as_str());
                proof {
                    assert(m@ == marker_line_for(n@));
                }
                out.push(m);
                proof {
                    assert(lines_view(out@) =~~= render_doc(prefix) + seq![marker_line_for(n@)]);
                }
            }
            let mut k: usize = 0;
            let ghost base = lines_view(out@);
            while k < sec.lines.len()
                invariant
                    0 <= k <= sec.lines@.len(),
                    lines_view(out@) == base + sec_v.lines.subrange(0, k as int),
                    sec_v.lines.len() == sec.lines@.len(),
                    forall|j: int| 0 <= j < sec.lines@.len()
                        ==> sec_v.lines[j] == sec.lines@[j]@,
                decreases sec.lines@.len() - k,
            {
                out.push(sec.lines[k].clone());
                proof {
                    assert(sec_v.lines.subrange(0, k + 1 as int) =~~= sec_v.lines.subrange(
                        0,
                        k as int,
                    ).push(sec_v.lines[k as int]));
                    assert(lines_view(out@) =~~= (base + sec_v.lines.subrange(0, k as int)).push(
                        sec_v.lines[k as int],
                    ));
                    assert((base + sec_v.lines.subrange(0, k as int)).push(sec_v.lines[k as int])
                        =~~= base + sec_v.lines.subrange(0, k + 1 as int));
                }
                k += 1;
            }
            i += 1;
            proof {
                assert(sec_v.lines.subrange(0, sec_v.lines.len() as int) =~= sec_v.lines);
                assert(self@.subrange(0, i as int).drop_last() =~= prefix);
                assert(self@.subrange(0, i as int).last() == sec_v);
                assert(lines_view(out@) =~~= render_doc(prefix) + render_section(sec_v));
            }
        }
        proof {
            assert(self@.subrange(0, self@.len() as int) =~= self@);
        }
        out
    }
}


/// For a well-formed document the serialized output starts with the
/// preamble's lines, verbatim.
pub proof fn lemma_render_preamble(doc: Seq<SectionV>)
    requires
        doc_wf(doc),
    ensures
        render_doc(doc).len() >= doc[0].lines.len(),
        render_doc(doc).subrange(0, doc[0].lines.len() as int) == doc[0].lines,
    decreases doc.len(),
{
    if doc.len() == 1 {
        assert(doc.drop_last() =~~= Seq::<SectionV>::empty());
        assert(render_doc(doc.drop_last()) =~~= Seq::<Seq<char>>::empty());
        assert(doc.last() == doc[0]);
        assert(render_doc(doc) =~~= render_section(doc[0]));
        assert(render_doc(doc).subrange(0, doc[0].lines.len() as int) =~~= doc[0].lines);
    } else {
        let p = doc.drop_last();
        assert(forall|i: int| 0 <= i < p.len() ==> p[i] == doc[i]);
        assert(doc_wf(p));
        lemma_render_preamble(p);
        assert(render_doc(doc).subrange(0, doc[0].lines.len() as int) =~~= render_doc(p).subrange(
            0,
            p[0].lines.len() as int,
        ));
    }
}

/// Replacing one section's lines touches no other section; afterwards the
/// replaced section holds exactly the new lines, and with a named section
/// the preamble in particular is untouched.
pub proof fn lemma_upsert_sections(
    doc: Seq<SectionV>,
    name: Option<Seq<char>>,
    lines: Seq<Seq<char>>,
)
    requires
        doc_wf(doc),
    ensures
        doc_wf(upsert(doc, name, lines)),
        section_lines(upsert(doc, name, lines), name) == Some(lines),
        forall|m: Option<Seq<char>>| m != name ==> #[trigger] section_lines(
            upsert(doc, name, lines),
            m,
        ) == section_lines(doc, m),
        name is Some ==> upsert(doc, name, lines)[0] == doc[0],
{
    lemma_find_named(doc, name);
    let i = find_named(doc, name);
    let out = upsert(doc, name, lines);
    if i < doc.len() {
        assert(doc[i].name == name);
        assert(out =~~= doc.update(i, (SectionV { name, lines })));
        assert(forall|k: int| 0 <= k < out.len() ==> out[k].name == doc[k].name);
        assert(doc_wf(out));
        assert(name is Some ==> i != 0);
        assert(out[i].name == name);
        assert(has_named(out, name));
        lemma_find_named(out, name);
        let j = find_named(out, name);
        assert(j == i);
        assert forall|m: Option<Seq<char>>| m != name implies #[trigger] section_lines(out, m)
            == section_lines(doc, m) by {
            lemma_find_named(out, m);
            lemma_find_named(doc, m);
            if has_named(doc, m) {
                let k = find_named(doc, m);
                assert(out[k].name == m);
                assert(has_named(out, m));
                let k2 = find_named(out, m);
                assert(doc[k2].name == m);
                assert(k2 == k);
                assert(k != i);
                assert(out[k] == doc[k]);
            } else {
                if has_named(out, m) {
                    let k2 = find_named(out, m);
                    assert(doc[k2].name == m);
                    assert(has_named(doc, m));
                }
            }
        }
    } else {
        assert(!has_named(doc, name));
        if name is None {
            assert(doc[0].name == None::<Seq<char>>);
            assert(has_named(doc, name));
            assert(false);
        }
        assert(out =~~= doc.push((SectionV { name, lines })));
        assert(forall|k: int| 0 <= k < doc.len() ==> out[k] == doc[k]);
        assert(out[doc.len() as int].name == name);
        assert forall|k: int, l: int| 0 <= k < l < out.len() implies out[k].name != out[l].name by {
            if l == doc.len() {
                assert(out[k].name == doc[k].name);
                assert(doc[k].name != name);
            }
        }
        assert(doc_wf(out));
        assert(has_named(out, name));
        lemma_find_named(out, name);
        let j = find_named(out, name);
        assert(out[j].name == name);
        assert(j == doc.len());
        assert forall|m: Option<Seq<char>>| m != name implies #[trigger] section_lines(out, m)
            == section_lines(doc, m) by {
            lemma_find_named(out, m);
            lemma_find_named(doc, m);
            if has_named(doc, m) {
                let k = find_named(doc, m);
                assert(out[k].name == m);
                assert(has_named(out, m));
                let k2 = find_named(out, m);
                assert(k2 < doc.len());
                assert(doc[k2].name == m);
                assert(k2 == k);
            } else {
                if has_named(out, m) {
                    let k2 = find_named(out, m);
                    assert(k2 < out.len());
                    assert(k2 != doc.len());
                    assert(doc[k2].name == m);
                    assert(has_named(doc, m));
                }
            }
        }
    }
}

proof fn lemma_roundtrip_aux(lines: Seq<Seq<char>>)
    requires
        forall|i: int| 0 <= i < lines.len() ==> trimmed(#[trigger] lines[i]) == lines[i],
        forall|i: int, j: int|
            0 <= i < j < lines.len() && is_marker_line(#[trigger] lines[i]) && is_marker_line(
                #[trigger] lines[j],
            ) ==> marker_name(lines[i]) != marker_name(lines[j]),
    ensures
        render_doc(parse_lines(lines)) == lines,
        forall|k: int| #![trigger parse_lines(lines)[k]] 1 <= k < parse_lines(lines).len()
            ==> exists|i: int|
                0 <= i < lines.len() && is_marker_line(#[trigger] lines[i]) && Some(
                    marker_name(lines[i]),
                ) == parse_lines(lines)[k].name,
    decreases lines.len(),
{
    lemma_parse_lines_wf(lines);
    if lines.len() == 0 {
        assert(parse_lines(lines) == empty_doc());
        assert(empty_doc().drop_last() =~~= Seq::<SectionV>::empty());
        assert(render_doc(empty_doc().drop_last()) =~~= Seq::<Seq<char>>::empty());
        assert(render_section(empty_doc().last()) =~~= Seq::<Seq<char>>::empty());
        assert(render_doc(parse_lines(lines)) =~~= lines);
    } else {
        let p = lines.drop_last();
        let l = lines.last();
        assert(forall|i: int| 0 <= i < p.len() ==> p[i] == lines[i]);
        lemma_roundtrip_aux(p);
        lemma_parse_lines_wf(p);
        let doc = parse_lines(p);
        let doc1 = parse_lines(lines);
        assert(lines.drop_last() == p);
        assert(doc1 == parse_step(doc, l));
        assert(trimmed(l) == l);
        if is_marker_line(l) {
            let n = marker_name(l);
            if has_named(doc, Some(n)) {
                lemma_find_named(doc, Some(n));
                let k = find_named(doc, Some(n));
                assert(doc[k].name == Some(n));
                assert(k >= 1);
                let i = choose|i: int|
                    0 <= i < p.len() && is_marker_line(#[trigger] p[i]) && Some(
                        marker_name(p[i]),
                    ) == doc[k].name;
                assert(lines[i] == p[i]);
                assert(marker_name(lines[i]) == n);
                assert(marker_name(lines[lines.len() - 1]) == n);
                assert(false);
            }
            lemma_find_named(doc, Some(n));
            assert(remove_named(doc, n) == doc);
            assert(doc1 =~~= doc.push((SectionV { name: Some(n), lines: Seq::empty() })));
            assert(doc1.drop_last() =~~= doc);
            assert(marker_line_for(n) =~= l);
            assert(render_section(doc1.last()) =~~= seq![l]);
            assert(render_doc(doc1) =~~= render_doc(doc) + seq![l]);
            assert(render_doc(doc1) =~~= lines);
            assert forall|k: int| #![trigger doc1[k]] 1 <= k < doc1.len() implies exists|i: int|
                0 <= i < lines.len() && is_marker_line(#[trigger] lines[i]) && Some(
                    marker_name(lines[i]),
                ) == doc1[k].name by {
                if k < doc.len() {
                    let i = choose|i: int|
                        0 <= i < p.len() && is_marker_line(#[trigger] p[i]) && Some(
                            marker_name(p[i]),
                        ) == doc[k].name;
                    assert(lines[i] == p[i]);
                    assert(is_marker_line(lines[i]) && Some(marker_name(lines[i])) == doc1[k].name);
                } else {
                    let i = lines.len() - 1;
                    assert(is_marker_line(lines[i]) && Some(marker_name(lines[i])) == doc1[k].name);
                }
            }
        } else {
            let m = doc.len() - 1;
            assert(doc1 =~~= doc.update(
                m,
                (SectionV { name: doc.last().name, lines: doc.last().lines.push(l) }),
            ));
            assert(doc1.drop_last() =~~= doc.drop_last());
            assert(doc1.last().name == doc.last().name);
            assert(render_section(doc1.last()) =~~= render_section(doc.last()).push(l));
            assert(render_doc(doc1) == render_doc(doc1.drop_last()) + render_section(doc1.last()));
            assert(render_doc(doc1) =~~= (render_doc(doc.drop_last()) + render_section(
                doc.last(),
            )).push(l));
            assert(render_doc(doc1) =~~= render_doc(doc).push(l));
            assert(render_doc(doc1) =~~= lines);
            assert forall|k: int| #![trigger doc1[k]] 1 <= k < doc1.len() implies exists|i: int|
                0 <= i < lines.len() && is_marker_line(#[trigger] lines[i]) && Some(
                    marker_name(lines[i]),
                ) == doc1[k].name by {
                assert(doc1[k].name == doc[k].name);
                let i = choose|i: int|
                    0 <= i < p.len() && is_marker_line(#[trigger] p[i]) && Some(
                        marker_name(p[i]),
                    ) == doc[k].name;
                assert(lines[i] == p[i]);
                assert(is_marker_line(lines[i]) && Some(marker_name(lines[i])) == doc1[k].name);
            }
        }
    }
}

/// Law: serializing a document straight after parsing reproduces the
/// source lines exactly, provided each line is already trimmed and no two
/// marker lines introduce the same name.
pub proof fn lemma_parse_render_roundtrip(lines: Seq<Seq<char>>)
    requires
        forall|i: int| 0 <= i < lines.len() ==> trimmed(#[trigger] lines[i]) == lines[i],
        forall|i: int, j: int|
            0 <= i < j < lines.len() && is_marker_line(#[trigger] lines[i]) && is_marker_line(
                #[trigger] lines[j],
            ) ==> marker_name(lines[i]) != marker_name(lines[j]),
    ensures
        render_doc(parse_lines(lines)) == lines,
{
    lemma_roundtrip_aux(lines);
}

/// Every line trimmed.
pub open spec fn trim_all(lines: Seq<Seq<char>>) -> Seq<Seq<char>> {
    lines.map_values(|l: Seq<char>| trimmed(l))
}

/// Parsing never sees a line's surrounding whitespace: pre-trimmed input
/// parses to the same document.
pub proof fn lemma_parse_lines_trim_invariant(lines: Seq<Seq<char>>)
    ensures
        parse_lines(trim_all(lines)) == parse_lines(lines),
    decreases lines.len(),
{
    let m = trim_all(lines);
    if lines.len() == 0 {
        assert(m =~~= lines);
    } else {
        lemma_parse_lines_trim_invariant(lines.drop_last());
        assert(m.drop_last() =~~= trim_all(lines.drop_last()));
        assert(m.last() == trimmed(lines.last()));
        crate::text::lemma_trimmed_trim_stable(lines.last());
        assert(trimmed(m.last()) == trimmed(lines.last()));
        assert(parse_lines(m) == parse_step(parse_lines(m.drop_last()), m.last()));
        assert(parse_step(parse_lines(lines.drop_last()), m.last()) == parse_step(
            parse_lines(lines.drop_last()),
            lines.last(),
        ));
    }
}

/// Law: serializing a document straight after parsing reproduces the
/// source lines up to per-line whitespace normalization, for any file in
/// which no two (trimmed) marker lines introduce the same name.
pub proof fn lemma_parse_render_normalizes(lines: Seq<Seq<char>>)
    requires
        forall|i: int, j: int|
            0 <= i < j < lines.len() && is_marker_line(trimmed(#[trigger] lines[i]))
                && is_marker_line(trimmed(#[trigger] lines[j])) ==> marker_name(
                trimmed(lines[i]),
            ) != marker_name(trimmed(lines[j])),
    ensures
        render_doc(parse_lines(lines)) == trim_all(lines),
{
    lemma_parse_lines_trim_invariant(lines);
    let m = trim_all(lines);
    assert forall|i: int| 0 <= i < m.len() implies trimmed(#[trigger] m[i]) == m[i] by {
        crate::text::lemma_trimmed_trim_stable(lines[i]);
    }
    assert forall|i: int, j: int|
        0 <= i < j < m.len() && is_marker_line(#[trigger] m[i]) && is_marker_line(
            #[trigger] m[j],
        ) implies marker_name(m[i]) != marker_name(m[j]) by {
        assert(m[i] == trimmed(lines[i]));
        assert(m[j] == trimmed(lines[j]));
    }
    lemma_parse_render_roundtrip(m);
}

} // verus!
