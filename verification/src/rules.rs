//! Metadata override rules and their lazily populated cache.
//!
//! A configuration source is a plain text file of lines.  A line that is
//! empty or begins with `#` is ignored; any other line must read
//! `name:value` (the first colon divides the two; a line without a colon
//! is ignored).  The value decides the override for files of that exact
//! name; when several lines name the same file, the last one wins:
//!
//! - a two-digit status (the first digit not zero) followed by a space:
//!   a full header override, the status to answer with and the meta text
//!   after the space — the file itself is never opened;
//! - a leading semicolon: extra MIME parameters appended to the guessed
//!   MIME type;
//! - anything else: the full MIME type to answer with.
//!
//! Sources are either decentral (one file per directory, governing the
//! files beside it by name) or central (one file at the content root,
//! governing the whole tree by relative path); the choice is fixed at
//! startup.  Each source is parsed the first time it is needed and the
//! parse is kept, so concurrent lookups serialized around the cache see a
//! single population per source.

use vstd::prelude::*;
use vstd::string::StrSliceExecFns;
use crate::paths::rendered_parent;
use crate::text::str_views;
use crate::paths::PathModel;
use crate::text::split_sep;
use crate::text::split_string;

verus! {

/// An override, as mathematical values.
pub ghost enum PresetView {
    Header(u8, Seq<char>),
    Mime(Seq<char>),
    Params(Seq<char>),
}

/// The override that governs how a file is answered.
pub enum PresetMeta {
    /// Status and meta to send; the file is not opened.
    FullHeader(u8, String),
    /// The full MIME type to send for the file's body.
    FullMime(String),
    /// Extra parameters appended to the guessed MIME type.
    Parameters(String),
}

impl View for PresetMeta {
    type V = PresetView;

    open spec fn view(&self) -> PresetView {
        match self {
            PresetMeta::FullHeader(status, meta) => PresetView::Header(*status, meta@),
            PresetMeta::FullMime(m) => PresetView::Mime(m@),
            PresetMeta::Parameters(p) => PresetView::Params(p@),
        }
    }
}

impl PresetMeta {
    /// An independent copy with the same meaning.
    pub fn duplicate(&self) -> (r: PresetMeta)
        ensures
            r@ == self@,
    {
        match self {
            PresetMeta::FullHeader(status, meta) => PresetMeta::FullHeader(*status, meta.clone()),
            PresetMeta::FullMime(m) => PresetMeta::FullMime(m.clone()),
            PresetMeta::Parameters(p) => PresetMeta::Parameters(p.clone()),
        }
    }
}

/// True of a decimal digit character.
pub open spec fn is_digit(c: char) -> bool {
    '0' <= c && c <= '9'
}

/// What a rule value means.  A header override needs a status the
/// protocol can answer with: two digits, the first not zero.
pub open spec fn classify_value(v: Seq<char>) -> PresetView {
    if v.len() >= 3 && '1' <= v[0] && v[0] <= '9' && is_digit(v[1]) && v[2] == ' ' {
        PresetView::Header(((v[0] as u8 - 0x30) * 10 + (v[1] as u8 - 0x30)) as u8, v.skip(3))
    } else if v.len() > 0 && v[0] == ';' {
        PresetView::Params(v)
    } else {
        PresetView::Mime(v)
    }
}

/// The position of the first occurrence of a character, or the length
/// when it does not occur.
pub open spec fn idx_of(s: Seq<char>, c: char) -> int
    decreases s.len(),
{
    if s.len() == 0 {
        0
    } else if s[0] == c {
        0
    } else {
        1 + idx_of(s.skip(1), c)
    }
}

/// The first occurrence is where the scan that saw no earlier occurrence
/// stops.
proof fn lemma_idx_of_scan(s: Seq<char>, c: char, k: int)
    requires
        0 <= k <= s.len(),
        forall|j: int| 0 <= j < k ==> s[j] != c,
    ensures
        k == s.len() ==> idx_of(s, c) == s.len(),
        k < s.len() && s[k] == c ==> idx_of(s, c) == k,
    decreases k,
{
    if k > 0 {
        let tail = s.skip(1);
        assert(forall|j: int| 0 <= j < k - 1 ==> tail[j] == s[j + 1] && s[j + 1] != c);
        lemma_idx_of_scan(tail, c, k - 1);
        assert(s[0] != c);
        assert(k < s.len() ==> tail[k - 1] == s[k]);
    }
}

/// The rule one line yields, if any.
pub open spec fn line_rule(l: Seq<char>) -> Option<(Seq<char>, PresetView)> {
    if l.len() == 0 || l[0] == '#' || idx_of(l, ':') == l.len() {
        None
    } else {
        Some((l.take(idx_of(l, ':')), classify_value(l.skip(idx_of(l, ':') + 1))))
    }
}

/// The rules of a sequence of lines, in order.
pub open spec fn rules_of_lines(lines: Seq<Seq<char>>) -> Seq<(Seq<char>, PresetView)>
    decreases lines.len(),
{
    if lines.len() == 0 {
        Seq::empty()
    } else {
        rules_of_lines(lines.drop_last()) + (match line_rule(lines.last()) {
            Some(r) => seq![r],
            None => Seq::<(Seq<char>, PresetView)>::empty(),
        })
    }
}

/// The rules of a whole configuration text.
pub open spec fn rules_of(text: Seq<char>) -> Seq<(Seq<char>, PresetView)> {
    rules_of_lines(split_sep(text, '\n'))
}

/// One parsed rule: a file name and its override.
pub struct MetaRule {
    pub name: String,
    pub preset: PresetMeta,
}

/// The views of a vector of rules.
pub open spec fn rule_views(v: Seq<MetaRule>) -> Seq<(Seq<char>, PresetView)> {
    Seq::new(v.len(), |i: int| (v[i].name@, v[i].preset@))
}

/// The parsed rules of one configuration source.
pub struct RuleSet {
    pub rules: Vec<MetaRule>,
}

fn parse_line(l: &String) -> (r: Option<MetaRule>)
    ensures
        r is Some <==> line_rule(l@) is Some,
        r matches Some(m) ==> line_rule(l@) == Some((m.name@, m.preset@)),
{
    let n = l.as_str().unicode_len();
    if n == 0 || l.as_str().get_char(0) == '#' {
        return None;
    }
    let mut k: usize = 0;
    while k < n
        invariant
            0 <= k <= n,
            n == l@.len(),
            l@.len() > 0 && l@[0] != '#',
            forall|j: int| 0 <= j < k ==> l@[j] != ':',
        decreases n - k,
    {
        if l.as_str().get_char(k) == ':' {
            proof {
                lemma_idx_of_scan(l@, ':', k as int);
            }
            let name = l.as_str().substring_char(0, k).to_owned();
            let value = l.as_str().substring_char(k + 1, n);
            proof {
                assert(name@ =~= l@.take(k as int));
                assert(value@ =~= l@.skip(k + 1));
            }
            let vn = value.unicode_len();
            let digits = vn >= 3 && {
                let c0 = value.get_char(0);
                let c1 = value.get_char(1);
                '1' <= c0 && c0 <= '9' && '0' <= c1 && c1 <= '9' && value.get_char(2) == ' '
            };
            let preset = if digits {
                let d0 = value.get_char(0) as u8 - 0x30;
                let d1 = value.get_char(1) as u8 - 0x30;
                let meta = value.substring_char(3, vn).to_owned();
                proof {
                    assert(meta@ =~= value@.skip(3));
                }
                PresetMeta::FullHeader(d0 * 10 + d1, meta)
            } else if vn > 0 && value.get_char(0) == ';' {
                PresetMeta::Parameters(value.to_owned())
            } else {
                PresetMeta::FullMime(value.to_owned())
            };
            return Some(MetaRule { name, preset });
        }
        k = k + 1;
    }
    proof {
        lemma_idx_of_scan(l@, ':', n as int);
    }
    None
}

/// Parse one configuration text into its rules.
pub fn parse_rules(text: &str) -> (r: RuleSet)
    ensures
        rule_views(r.rules@) == rules_of(text@),
{
    let lines = split_string(text, '\n');
    let ghost line_views = split_sep(text@, '\n');
    let mut rules: Vec<MetaRule> = Vec::new();
    let mut i: usize = 0;
    proof {
        assert(line_views.take(0) =~= Seq::<Seq<char>>::empty());
        assert(rule_views(rules@) =~= rules_of_lines(line_views.take(0)));
    }
    while i < lines.len()
        invariant
            i <= lines@.len(),
            line_views == str_views(lines@),
            rule_views(rules@) == rules_of_lines(line_views.take(i as int)),
        decreases lines@.len() - i,
    {
        proof {
            assert(line_views.take(i + 1).drop_last() =~= line_views.take(i as int));
            assert(line_views.take(i + 1).last() == line_views[i as int]);
            assert(line_views[i as int] == lines@[i as int]@);
        }
        match parse_line(&lines[i]) {
            Some(rule) => {
                proof {
                    assert(rule_views(rules@.push(rule)) =~= rule_views(rules@) + seq![
                        (rule.name@, rule.preset@),
                    ]);
                }
                rules.push(rule);
            },
            None => {
                proof {
                    assert(rules_of_lines(line_views.take(i + 1)) =~= rules_of_lines(
                        line_views.take(i as int),
                    ));
                }
            },
        }
        i = i + 1;
    }
    proof {
        assert(line_views.take(line_views.len() as int) =~= line_views);
    }
    RuleSet { rules }
}

/// The override the rules give a name: the last matching rule, if any.
pub open spec fn lookup_rules(rs: Seq<(Seq<char>, PresetView)>, name: Seq<char>) -> Option<
    PresetView,
>
    decreases rs.len(),
{
    if rs.len() == 0 {
        None
    } else if rs.last().0 == name {
        Some(rs.last().1)
    } else {
        lookup_rules(rs.drop_last(), name)
    }
}

impl RuleSet {
    /// Find the override for a name, latest rule first.
    pub fn lookup(&self, name: &String) -> (r: Option<&PresetMeta>)
        ensures
            r is Some <==> lookup_rules(rule_views(self.rules@), name@) is Some,
            r matches Some(p) ==> lookup_rules(rule_views(self.rules@), name@) == Some(p@),
    {
        let ghost views = rule_views(self.rules@);
        let mut i: usize = self.rules.len();
        proof {
            assert(views.take(i as int) =~= views);
        }
        while i > 0
            invariant
                i <= self.rules@.len(),
                views == rule_views(self.rules@),
                lookup_rules(views, name@) == lookup_rules(views.take(i as int), name@),
            decreases i,
        {
            proof {
                assert(views.take(i as int).last() == views[i - 1]);
                assert(views.take(i as int).drop_last() =~= views.take(i - 1));
            }
            if self.rules[i - 1].name.eq(name) {
                return Some(&self.rules[i - 1].preset);
            }
            i = i - 1;
        }
        proof {
            assert(views.take(0) =~= Seq::<(Seq<char>, PresetView)>::empty());
        }
        None
    }
}

/// The rule set cached for a key, if any: keys are compared as text, and
/// the first entry wins (at most one entry per key ever exists).
pub open spec fn find_entry(es: Seq<(String, RuleSet)>, key: Seq<char>) -> Option<
    Seq<(Seq<char>, PresetView)>,
>
    decreases es.len(),
{
    if es.len() == 0 {
        None
    } else if es[0].0@ == key {
        Some(rule_views(es[0].1.rules@))
    } else {
        find_entry(es.drop_first(), key)
    }
}

/// The metadata override store: one rule set per configuration source,
/// parsed on first use and kept, with the default override for files no
/// rule names.
pub struct FileOptions {
    entries: Vec<(String, RuleSet)>,
    default_preset: PresetMeta,
    central: bool,
}

impl FileOptions {
    /// The cached rule sets, by source key.
    pub closed spec fn cache(&self) -> Seq<(String, RuleSet)> {
        self.entries@
    }

    /// The default override.
    pub closed spec fn default_view(&self) -> PresetView {
        self.default_preset@
    }

    /// Whether one central source governs the whole tree.
    pub closed spec fn is_central(&self) -> bool {
        self.central
    }

    pub fn new(default_preset: PresetMeta, central: bool) -> (r: FileOptions)
        ensures
            r.cache() == Seq::<(String, RuleSet)>::empty(),
            r.default_view() == default_preset@,
            r.is_central() == central,
    {
        FileOptions { entries: Vec::new(), default_preset, central }
    }

    /// Whether one central source governs the whole tree.
    pub fn central(&self) -> (r: bool)
        ensures
            r == self.is_central(),
    {
        self.central
    }

    /// Whether the source with this key has been parsed already.
    pub fn is_loaded(&self, key: &String) -> (r: bool)
        ensures
            r == (find_entry(self.cache(), key@) is Some),
    {
        let mut i: usize = 0;
        let ghost es = self.entries@;
        proof {
            assert(es.skip(0) =~= es);
        }
        while i < self.entries.len()
            invariant
                i <= es.len(),
                es == self.entries@,
                find_entry(es, key@) == find_entry(es.skip(i as int), key@),
                forall|j: int| 0 <= j < i ==> #[trigger] es[j].0@ != key@,
            decreases es.len() - i,
        {
            proof {
                assert(es.skip(i as int)[0] == es[i as int]);
                assert(es.skip(i as int).drop_first() =~= es.skip(i + 1));
            }
            if self.entries[i].0.eq(key) {
                return true;
            }
            i = i + 1;
        }
        proof {
            assert(es.skip(es.len() as int) =~= Seq::<(String, RuleSet)>::empty());
        }
        false
    }

    /// Parse the source with this key and keep the result, unless it is
    /// already cached: a key that is present is left exactly as it is, so
    /// every source is parsed at most once, however many connections ask
    /// for it.  A missing source (`None`) yields the empty rule set.
    pub fn load(&mut self, key: &String, text: Option<&String>)
        ensures
            find_entry(old(self).cache(), key@) is Some ==> *final(self) == *old(self),
            find_entry(old(self).cache(), key@) is None
                ==> final(self).cache().drop_last() == old(self).cache()
                && final(self).cache().len() == old(self).cache().len() + 1
                && final(self).cache().last().0@ == key@,
            find_entry(final(self).cache(), key@) == (match find_entry(old(self).cache(), key@) {
                Some(v) => Some(v),
                None => Some(loaded_rules(text)),
            }),
            final(self).default_view() == old(self).default_view(),
            final(self).is_central() == old(self).is_central(),
    {
        if self.is_loaded(key) {
            return;
        }
        let parsed = match text {
            Some(t) => parse_rules(t.as_str()),
            None => {
                let empty_rules = RuleSet { rules: Vec::new() };
                proof {
                    assert(rule_views(empty_rules.rules@) =~= Seq::<(Seq<char>, PresetView)>::empty());
                }
                empty_rules
            },
        };
        let ghost old_es = self.entries@;
        self.entries.push((key.clone(), parsed));
        proof {
            assert(self.entries@.drop_last() =~= old_es);
            lemma_find_entry_push(old_es, self.entries@.last(), key@);
        }
    }

    /// The override that governs a file name under the source with this
    /// key: the last matching rule, or the default.
    pub fn lookup(&self, key: &String, name: &String) -> (r: PresetMeta)
        requires
            find_entry(self.cache(), key@) is Some,
        ensures
            r@ == (match lookup_rules(find_entry(self.cache(), key@).unwrap(), name@) {
                Some(p) => p,
                None => self.default_view(),
            }),
    {
        match self.find(key) {
            Some(rs) => match rs.lookup(name) {
                Some(p) => p.duplicate(),
                None => self.default_preset.duplicate(),
            },
            None => self.default_preset.duplicate(),
        }
    }

    /// Whether some rule names the file exactly: what decides if a dotted
    /// name is still served.
    pub fn has_rule(&self, key: &String, name: &String) -> (r: bool)
        requires
            find_entry(self.cache(), key@) is Some,
        ensures
            r == (lookup_rules(find_entry(self.cache(), key@).unwrap(), name@) is Some),
    {
        match self.find(key) {
            Some(rs) => rs.lookup(name).is_some(),
            None => false,
        }
    }

    fn find(&self, key: &String) -> (r: Option<&RuleSet>)
        ensures
            r is Some <==> find_entry(self.cache(), key@) is Some,
            r matches Some(rs) ==> find_entry(self.cache(), key@) == Some(rule_views(rs.rules@)),
    {
        let mut i: usize = 0;
        let ghost es = self.entries@;
        proof {
            assert(es.skip(0) =~= es);
        }
        while i < self.entries.len()
            invariant
                i <= es.len(),
                es == self.entries@,
                find_entry(es, key@) == find_entry(es.skip(i as int), key@),
            decreases es.len() - i,
        {
            proof {
                assert(es.skip(i as int)[0] == es[i as int]);
                assert(es.skip(i as int).drop_first() =~= es.skip(i + 1));
            }
            if self.entries[i].0.eq(key) {
                return Some(&self.entries[i].1);
            }
            i = i + 1;
        }
        proof {
            assert(es.skip(es.len() as int) =~= Seq::<(String, RuleSet)>::empty());
        }
        None
    }
}

/// The rule views that loading from this text yields: a missing source
/// is an empty rule set.
pub open spec fn loaded_rules(text: Option<&String>) -> Seq<(Seq<char>, PresetView)> {
    match text {
        Some(t) => rules_of(t@),
        None => Seq::empty(),
    }
}

/// Appending a fresh key is only visible under that key.
proof fn lemma_find_entry_push(es: Seq<(String, RuleSet)>, entry: (String, RuleSet), key: Seq<char>)
    requires
        find_entry(es, key) is None,
        entry.0@ == key,
    ensures
        find_entry(es.push(entry), key) == Some(rule_views(entry.1.rules@)),
    decreases es.len(),
{
    if es.len() == 0 {
        assert(es.push(entry)[0] == entry);
    } else {
        assert(es.push(entry)[0] == es[0]);
        assert(es.push(entry).drop_first() =~= es.drop_first().push(entry));
        lemma_find_entry_push(es.drop_first(), entry, key);
    }
}

/// The items whose joined text names a path relative to the content
/// root: the host subdirectory when there is one, then the components.
pub open spec fn rel_items(p: PathModel) -> Seq<Seq<char>> {
    (match p.host_seg {
        Some(h) => seq![h@],
        None => Seq::<Seq<char>>::empty(),
    }) + str_views(p.segments@)
}

/// Pieces joined by a separating slash, with no slash at either end.
pub open spec fn join_rel(items: Seq<Seq<char>>) -> Seq<char>
    decreases items.len(),
{
    if items.len() == 0 {
        Seq::empty()
    } else if items.len() == 1 {
        items[0]
    } else {
        join_rel(items.drop_last()) + seq!['/'] + items.last()
    }
}

/// The source that governs a path, and the name to look up in its rules:
/// with a central source, the content root and the path relative to it;
/// with decentral sources, the containing directory and the bare file
/// name.
pub fn config_location(p: &PathModel, central: bool) -> (r: (String, String))
    ensures
        central ==> r.0@ == p.root@ && r.1@ == join_rel(rel_items(*p)),
        !central ==> r.0@ == rendered_parent(*p) && (p.segments@.len() > 0 ==> r.1@
            == p.segments@.last()@) && (p.segments@.len() == 0 ==> r.1@ == Seq::<char>::empty()),
{
    if central {
        let ghost items = rel_items(*p);
        let mut s = String::new();
        let mut first = true;
        let ghost k: int = 0;
        proof {
            assert(items.take(0) =~= Seq::<Seq<char>>::empty());
            assert(s@ =~= join_rel(items.take(0)));
        }
        match &p.host_seg {
            Some(h) => {
                s.append(h.as_str());
                proof {
                    k = 1;
                    assert(items.take(1).len() == 1);
                    assert(items.take(1)[0] == h@);
                    assert(s@ =~= join_rel(items.take(1)));
                }
                first = false;
            },
            None => {},
        }
        let mut i: usize = 0;
        while i < p.segments.len()
            invariant
                i <= p.segments@.len(),
                items == rel_items(*p),
                k == i + (if p.host_seg is Some { 1int } else { 0int }),
                0 <= k <= items.len(),
                items.len() == p.segments@.len() + (if p.host_seg is Some { 1int } else { 0int }),
                first <==> k == 0,
                s@ == join_rel(items.take(k)),
                forall|j: int| 0 <= j < p.segments@.len() ==> items[j + (if p.host_seg is Some { 1int } else { 0int })] == #[trigger] p.segments@[j]@,
            decreases p.segments@.len() - i,
        {
            if !first {
                s.append("/");
            }
            s.append(p.segments[i].as_str());
            proof {
                reveal_strlit("/");
                assert("/"@ =~= seq!['/']);
                assert(items.take(k + 1).last() == items[k]);
                assert(items[k] == p.segments@[i as int]@);
                if k == 0 {
                    assert(items.take(1).len() == 1);
                    assert(s@ =~= join_rel(items.take(k + 1)));
                } else {
                    assert(items.take(k + 1).drop_last() =~= items.take(k));
                    assert(s@ =~= join_rel(items.take(k + 1)));
                }
                k = k + 1;
            }
            first = false;
            i = i + 1;
        }
        proof {
            assert(items.take(items.len() as int) =~= items);
        }
        (p.root.clone(), s)
    } else {
        let name = match p.file_name() {
            Some(n) => n.clone(),
            None => String::new(),
        };
        (p.render_parent(), name)
    }
}

} // verus!
