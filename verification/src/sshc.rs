//! The configuration document model: an ordered reconstruction plan of
//! line kinds plus a table from host name to its ordered parameter list,
//! with parsing, rendering and the host operations.

use vstd::prelude::*;
use vstd::hash_map::StringHashMap;
use crate::text::{
    is_space_char, trim_str, str_eq, line_tokens, contains_str, trim, tokens, has_substring,
};

verus! {

/// One configuration directive: a key with an optional value.
pub type Parameter = (String, Option<String>);

/// The mathematical counterpart of [`Parameter`].
pub type ParamView = (Seq<char>, Option<Seq<char>>);

/// One entry of the reconstruction plan.
pub enum Content {
    /// A blank line.
    Empty,
    /// A full-line comment, stored verbatim.
    Comment(String),
    /// A `Host <name>` block header.
    Host(String),
}

/// The mathematical counterpart of [`Content`].
pub enum LineKind {
    Empty,
    Comment(Seq<char>),
    Host(Seq<char>),
}

impl View for Content {
    type V = LineKind;

    open spec fn view(&self) -> LineKind {
        match self {
            Content::Empty => LineKind::Empty,
            Content::Comment(t) => LineKind::Comment(t@),
            Content::Host(h) => LineKind::Host(h@),
        }
    }
}

impl DeepView for Content {
    type V = LineKind;

    open spec fn deep_view(&self) -> LineKind {
        self.view()
    }
}

/// The mathematical model of a document: the reconstruction plan and the
/// parameter table.
#[verifier::ext_equal]
pub struct Doc {
    pub plan: Seq<LineKind>,
    pub hosts: Map<Seq<char>, Seq<ParamView>>,
}

/// The parameter table of a [`StringHashMap`], with parameter lists
/// abstracted to sequences.
pub open spec fn hosts_view(m: Map<Seq<char>, Vec<Parameter>>) -> Map<Seq<char>, Seq<ParamView>> {
    Map::new(|k: Seq<char>| m.dom().contains(k), |k: Seq<char>| m[k].deep_view())
}

/// An SSH client configuration document.
pub struct Sshc {
    contents: Vec<Content>,
    hosts: StringHashMap<Vec<Parameter>>,
}

impl View for Sshc {
    type V = Doc;

    closed spec fn view(&self) -> Doc {
        Doc { plan: self.contents.deep_view(), hosts: hosts_view(self.hosts@) }
    }
}

// ---------------------------------------------------------------------------
// Parsing
// ---------------------------------------------------------------------------

/// Whether a line begins a host block: the literal prefix `Host`,
/// case-sensitive, with no word-boundary check.
pub open spec fn is_host_line(l: Seq<char>) -> bool {
    l.len() >= 4 && l[0] == 'H' && l[1] == 'o' && l[2] == 's' && l[3] == 't'
}

/// The host name declared by a host line: the rest of the line, trimmed.
pub open spec fn host_name_of(l: Seq<char>) -> Seq<char> {
    trim(l.skip(4))
}

/// Whether a line is a top-level comment: its trimmed form starts with `#`.
pub open spec fn is_comment_line(l: Seq<char>) -> bool {
    trim(l).len() > 0 && trim(l)[0] == '#'
}

/// Whether a line is blank up to whitespace.
pub open spec fn is_blank_line(l: Seq<char>) -> bool {
    trim(l).len() == 0
}

/// Flushes the active host accumulator into a table built from the lines
/// that follow it; a later entry for the same name wins.
pub open spec fn flush(
    cur: Option<(Seq<char>, Seq<ParamView>)>,
    later: Map<Seq<char>, Seq<ParamView>>,
) -> Map<Seq<char>, Seq<ParamView>> {
    match cur {
        None => later,
        Some(hp) => if later.dom().contains(hp.0) {
            later
        } else {
            later.insert(hp.0, hp.1)
        },
    }
}

/// Parses the remaining lines, given the active host accumulator.
pub open spec fn parse_from(
    lines: Seq<Seq<char>>,
    cur: Option<(Seq<char>, Seq<ParamView>)>,
) -> Doc
    decreases lines.len(),
{
    if lines.len() == 0 {
        Doc { plan: Seq::empty(), hosts: flush(cur, Map::empty()) }
    } else {
        let l = lines[0];
        let rest = lines.skip(1);
        if is_host_line(l) {
            let d = parse_from(rest, Some((host_name_of(l), Seq::empty())));
            Doc {
                plan: seq![LineKind::Host(host_name_of(l))] + d.plan,
                hosts: flush(cur, d.hosts),
            }
        } else {
            match cur {
                Some(hp) => if tokens(l).len() == 2 {
                    parse_from(rest, Some((hp.0, hp.1.push((tokens(l)[0], Some(tokens(l)[1]))))))
                } else {
                    parse_from(rest, Some(hp))
                },
                None => if is_comment_line(l) {
                    let d = parse_from(rest, None);
                    Doc { plan: seq![LineKind::Comment(l)] + d.plan, hosts: d.hosts }
                } else if is_blank_line(l) {
                    let d = parse_from(rest, None);
                    Doc { plan: seq![LineKind::Empty] + d.plan, hosts: d.hosts }
                } else {
                    parse_from(rest, None)
                },
            }
        }
    }
}

/// The document that a sequence of raw lines parses to.
pub open spec fn parse_doc(lines: Seq<Seq<char>>) -> Doc {
    parse_from(lines, None)
}

// ---------------------------------------------------------------------------
// Rendering
// ---------------------------------------------------------------------------

/// The parameter list attached to `h`, or the empty list for a dangling
/// marker.
pub open spec fn entry_params(hosts: Map<Seq<char>, Seq<ParamView>>, h: Seq<char>) -> Seq<
    ParamView,
> {
    if hosts.dom().contains(h) {
        hosts[h]
    } else {
        Seq::empty()
    }
}

/// The rendered lines of a parameter list: `  <key> <value>` for every
/// parameter whose value is present; parameters without a value are skipped.
pub open spec fn param_lines(ps: Seq<ParamView>) -> Seq<Seq<char>>
    decreases ps.len(),
{
    if ps.len() == 0 {
        Seq::empty()
    } else {
        let rest = param_lines(ps.skip(1));
        match ps[0].1 {
            Some(v) => seq!["  "@ + ps[0].0 + " "@ + v] + rest,
            None => rest,
        }
    }
}

/// The rendered lines of one plan entry: a blank line, a verbatim comment,
/// or a host header with its parameter lines and a trailing blank line.
pub open spec fn block_lines(k: LineKind, hosts: Map<Seq<char>, Seq<ParamView>>) -> Seq<
    Seq<char>,
> {
    match k {
        LineKind::Empty => seq![Seq::<char>::empty()],
        LineKind::Comment(t) => seq![t],
        LineKind::Host(h) => seq!["Host "@ + h] + param_lines(entry_params(hosts, h)) + seq![
            Seq::<char>::empty(),
        ],
    }
}

/// The rendered lines of a plan suffix.
pub open spec fn plan_lines(plan: Seq<LineKind>, hosts: Map<Seq<char>, Seq<ParamView>>) -> Seq<
    Seq<char>,
>
    decreases plan.len(),
{
    if plan.len() == 0 {
        Seq::empty()
    } else {
        block_lines(plan[0], hosts) + plan_lines(plan.skip(1), hosts)
    }
}

/// The rendered lines of a document, without line terminators.
pub open spec fn doc_lines(d: Doc) -> Seq<Seq<char>> {
    plan_lines(d.plan, d.hosts)
}

/// Joins lines into one text, terminating each with a newline.
pub open spec fn join_lines(ls: Seq<Seq<char>>) -> Seq<char>
    decreases ls.len(),
{
    if ls.len() == 0 {
        Seq::empty()
    } else {
        ls[0] + seq!['\n'] + join_lines(ls.skip(1))
    }
}

/// The full rendered text of a document.
pub open spec fn render_doc(d: Doc) -> Seq<char> {
    join_lines(doc_lines(d))
}

// ---------------------------------------------------------------------------
// Host operations, specified
// ---------------------------------------------------------------------------

/// The `HostName` value shown when listing: the value of the first
/// parameter with that key, blank when the key is absent or carries no
/// value.
pub open spec fn hostname_value(ps: Seq<ParamView>) -> Seq<char> {
    let i = key_index(ps, "HostName"@);
    if i < 0 {
        Seq::empty()
    } else {
        match ps[i].1 {
            Some(v) => v,
            None => Seq::empty(),
        }
    }
}

/// The listing line contributed by one plan entry: a marker whose name
/// contains the pattern and has a table entry yields one formatted line.
pub open spec fn list_entry(
    k: LineKind,
    hosts: Map<Seq<char>, Seq<ParamView>>,
    pat: Seq<char>,
) -> Seq<char> {
    match k {
        LineKind::Host(h) => if has_substring(h, pat) && hosts.dom().contains(h) {
            "  "@ + h + " -> "@ + hostname_value(hosts[h]) + "\n"@
        } else {
            Seq::empty()
        },
        _ => Seq::empty(),
    }
}

/// The listing text of a plan suffix.
pub open spec fn list_from(
    plan: Seq<LineKind>,
    hosts: Map<Seq<char>, Seq<ParamView>>,
    pat: Seq<char>,
) -> Seq<char>
    decreases plan.len(),
{
    if plan.len() == 0 {
        Seq::empty()
    } else {
        list_entry(plan[0], hosts, pat) + list_from(plan.skip(1), hosts, pat)
    }
}

/// The listing text of a document, in plan order.
pub open spec fn list_spec(d: Doc, pat: Seq<char>) -> Seq<char> {
    list_from(d.plan, d.hosts, pat)
}

/// The document after adding a host: one more marker at the end of the
/// plan, and the table entry inserted, overwriting any prior one.
pub open spec fn add_spec(d: Doc, name: Seq<char>, ps: Seq<ParamView>) -> Doc {
    Doc { plan: d.plan.push(LineKind::Host(name)), hosts: d.hosts.insert(name, ps) }
}

/// The index of the first parameter named `key`, or `-1` if absent.
pub open spec fn key_index(ps: Seq<ParamView>, key: Seq<char>) -> int
    decreases ps.len(),
{
    if ps.len() == 0 {
        -1
    } else if ps[0].0 == key {
        0
    } else if key_index(ps.skip(1), key) == -1 {
        -1
    } else {
        1 + key_index(ps.skip(1), key)
    }
}

/// Merges one supplied parameter: overwrite the first parameter with the
/// same key in place, or append when the key is new.
pub open spec fn merge_one(ps: Seq<ParamView>, p: ParamView) -> Seq<ParamView> {
    let i = key_index(ps, p.0);
    if i < 0 {
        ps.push(p)
    } else {
        ps.update(i, p)
    }
}

/// Merges the first `n` supplied parameters, left to right.
pub open spec fn merge_upto(ps: Seq<ParamView>, upd: Seq<ParamView>, n: int) -> Seq<ParamView>
    decreases n,
{
    if n <= 0 {
        ps
    } else {
        merge_one(merge_upto(ps, upd, n - 1), upd[n - 1])
    }
}

/// Merges a supplied parameter list into an existing one.
pub open spec fn merge_params(ps: Seq<ParamView>, upd: Seq<ParamView>) -> Seq<ParamView> {
    merge_upto(ps, upd, upd.len() as int)
}

/// The document after an edit: a no-op for an unknown name; otherwise the
/// parameter list is replaced (force) or merged.
pub open spec fn edit_spec(d: Doc, name: Seq<char>, ps: Seq<ParamView>, force: bool) -> Doc {
    if !d.hosts.dom().contains(name) {
        d
    } else if force {
        Doc { plan: d.plan, hosts: d.hosts.insert(name, ps) }
    } else {
        Doc { plan: d.plan, hosts: d.hosts.insert(name, merge_params(d.hosts[name], ps)) }
    }
}

/// The index of the first marker named `name` in the plan, or `-1`.
pub open spec fn find_marker(plan: Seq<LineKind>, name: Seq<char>) -> int
    decreases plan.len(),
{
    if plan.len() == 0 {
        -1
    } else if plan[0] == LineKind::Host(name) {
        0
    } else if find_marker(plan.skip(1), name) == -1 {
        -1
    } else {
        1 + find_marker(plan.skip(1), name)
    }
}

/// The document after a delete: the table entry removed, and only the
/// first matching marker removed from the plan.
pub open spec fn delete_spec(d: Doc, name: Seq<char>) -> Doc {
    let i = find_marker(d.plan, name);
    Doc {
        plan: if i < 0 {
            d.plan
        } else {
            d.plan.remove(i)
        },
        hosts: d.hosts.remove(name),
    }
}

/// `find_marker` never returns a value below `-1`.
pub proof fn lemma_find_marker_ge(plan: Seq<LineKind>, name: Seq<char>)
    ensures
        find_marker(plan, name) >= -1,
    decreases plan.len(),
{
    if plan.len() > 0 && plan[0] != LineKind::Host(name) {
        lemma_find_marker_ge(plan.skip(1), name);
    }
}

// ---------------------------------------------------------------------------
// Executable helpers
// ---------------------------------------------------------------------------

/// Whether a raw line begins a host block.
fn starts_host(line: &str) -> (r: bool)
    ensures
        r == is_host_line(line@),
{
    line.unicode_len() >= 4 && line.get_char(0) == 'H' && line.get_char(1) == 'o'
        && line.get_char(2) == 's' && line.get_char(3) == 't'
}

/// Copies one parameter.
fn clone_param(p: &Parameter) -> (r: Parameter)
    ensures
        r.deep_view() == p.deep_view(),
{
    let v: Option<String> = match &p.1 {
        Some(s) => Some(s.clone()),
        None => None,
    };
    (p.0.clone(), v)
}

/// Copies a parameter list.
fn copy_params(ps: &Vec<Parameter>) -> (r: Vec<Parameter>)
    ensures
        r.deep_view() == ps.deep_view(),
{
    let mut out: Vec<Parameter> = Vec::new();
    let mut i: usize = 0;
    while i < ps.len()
        invariant
            i <= ps.len(),
            out.deep_view() == ps.deep_view().take(i as int),
        decreases ps.len() - i,
    {
        let c = clone_param(&ps[i]);
        proof {
            assert(c.deep_view() == ps@[i as int].deep_view());
            assert(ps.deep_view()[i as int] == ps@[i as int].deep_view());
        }
        out.push(c);
        proof {
            assert(ps.deep_view().take(i as int).len() == i);
            assert(out.deep_view() =~~= ps.deep_view().take(i as int + 1));
        }
        i = i + 1;
    }
    proof {
        assert(ps.deep_view().take(ps.len() as int) =~= ps.deep_view());
    }
    out
}

impl Sshc {
    /// Builds a document by parsing raw configuration lines.
    pub fn from_lines(lines: Vec<String>) -> (r: Sshc)
        ensures
            r@ == parse_doc(lines.deep_view()),
    {
        let ghost ls = lines.deep_view();
        let mut contents: Vec<Content> = Vec::new();
        let mut hosts: StringHashMap<Vec<Parameter>> = StringHashMap::new();
        let mut cur: Option<(String, Vec<Parameter>)> = None;
        let n: usize = lines.len();
        let mut i: usize = 0;
        proof {
            assert(ls.skip(0) =~= ls);
            assert(contents.deep_view() + parse_from(ls, cur_view(cur)).plan =~= parse_doc(
                ls,
            ).plan);
            assert(hosts_view(hosts@).union_prefer_right(parse_from(ls, cur_view(cur)).hosts)
                =~= parse_doc(ls).hosts);
        }
        while i < n
            invariant
                i <= n,
                n == lines.len(),
                ls == lines.deep_view(),
                parse_doc(ls).plan == contents.deep_view() + parse_from(
                    ls.skip(i as int),
                    cur_view(cur),
                ).plan,
                parse_doc(ls).hosts == hosts_view(hosts@).union_prefer_right(
                    parse_from(ls.skip(i as int), cur_view(cur)).hosts,
                ),
            decreases n - i,
        {
            let ghost rest = ls.skip(i as int);
            let ghost cv0 = cur_view(cur);
            proof {
                assert(rest[0] == ls[i as int]);
                assert(ls[i as int] == lines[i as int].deep_view());
                assert(rest.skip(1) =~= ls.skip(i as int + 1));
            }
            let line: &String = &lines[i];
            if starts_host(line.as_str()) {
                let ln: usize = line.as_str().unicode_len();
                let name: String = trim_str(line.as_str().substring_char(4, ln)).to_owned();
                let ghost nm = host_name_of(line@);
                let ghost d = parse_from(ls.skip(i as int + 1), Some((nm, Seq::empty())));
                proof {
                    assert(line@.subrange(4, ln as int) =~= line@.skip(4));
                    assert(name@ == nm);
                    assert(parse_from(rest, cv0).plan == seq![LineKind::Host(nm)] + d.plan);
                    assert(parse_from(rest, cv0).hosts == flush(cv0, d.hosts));
                }
                let prev = cur;
                let ghost pdeep = contents.deep_view();
                let ghost hmap = hosts_view(hosts@);
                contents.push(Content::Host(name.clone()));
                let empty_params: Vec<Parameter> = Vec::new();
                proof {
                    assert(empty_params.deep_view() =~= Seq::<ParamView>::empty());
                    assert(contents.deep_view() =~= pdeep.push(LineKind::Host(nm)));
                }
                cur = Some((name, empty_params));
                match prev {
                    Some(hp) => {
                        let (h, ps) = hp;
                        let ghost hv = h@;
                        let ghost pv = ps.deep_view();
                        hosts.insert(h, ps);
                        proof {
                            assert(hosts_view(hosts@) =~= hmap.insert(hv, pv));
                            assert(hosts_view(hosts@).union_prefer_right(d.hosts)
                                =~= hmap.union_prefer_right(flush(cv0, d.hosts)));
                        }
                    },
                    None => {},
                }
                proof {
                    assert(contents.deep_view() + d.plan =~= pdeep + (seq![
                        LineKind::Host(nm),
                    ] + d.plan));
                    assert(parse_doc(ls).plan == contents.deep_view() + parse_from(
                        ls.skip(i as int + 1),
                        cur_view(cur),
                    ).plan);
                    assert(parse_doc(ls).hosts == hosts_view(hosts@).union_prefer_right(
                        parse_from(ls.skip(i as int + 1), cur_view(cur)).hosts,
                    ));
                }
            } else {
                let prev = cur;
                match prev {
                    Some(hp) => {
                        let (h, mut ps) = hp;
                        let ghost pv = ps.deep_view();
                        let toksv = line_tokens(line.as_str());
                        proof {
                            assert(toksv.deep_view().len() == toksv@.len());
                        }
                        if toksv.len() == 2 {
                            let k = toksv[0].clone();
                            let v = toksv[1].clone();
                            proof {
                                assert(k@ == tokens(line@)[0]);
                                assert(v@ == tokens(line@)[1]);
                            }
                            ps.push((k, Some(v)));
                            proof {
                                assert(ps.deep_view() =~= pv.push(
                                    (tokens(line@)[0], Some(tokens(line@)[1])),
                                ));
                            }
                            cur = Some((h, ps));
                        } else {
                            cur = Some((h, ps));
                        }
                        proof {
                            assert(parse_from(rest, cv0) == parse_from(
                                ls.skip(i as int + 1),
                                cur_view(cur),
                            ));
                        }
                    },
                    None => {
                        let t = trim_str(line.as_str());
                        let ghost pdeep = contents.deep_view();
                        let ghost d = parse_from(ls.skip(i as int + 1), None);
                        if t.unicode_len() > 0 && t.get_char(0) == '#' {
                            contents.push(Content::Comment(line.clone()));
                            proof {
                                assert(is_comment_line(line@));
                                assert(contents.deep_view() + d.plan =~= pdeep + (seq![
                                    LineKind::Comment(line@),
                                ] + d.plan));
                            }
                        } else if t.unicode_len() == 0 {
                            contents.push(Content::Empty);
                            proof {
                                assert(is_blank_line(line@));
                                assert(contents.deep_view() + d.plan =~= pdeep + (seq![
                                    LineKind::Empty,
                                ] + d.plan));
                            }
                        }
                        cur = None;
                    },
                }
            }
            i = i + 1;
        }
        proof {
            assert(ls.skip(n as int) =~= Seq::<Seq<char>>::empty());
        }
        let ghost pdeep = contents.deep_view();
        let ghost hmap = hosts_view(hosts@);
        let ghost cvf = cur_view(cur);
        match cur {
            Some(hp) => {
                let (h, ps) = hp;
                let ghost hv = h@;
                let ghost pv = ps.deep_view();
                hosts.insert(h, ps);
                proof {
                    assert(hosts_view(hosts@) =~= hmap.insert(hv, pv));
                    assert(hosts_view(hosts@) =~= hmap.union_prefer_right(
                        flush(cvf, Map::empty()),
                    ));
                }
            },
            None => {
                proof {
                    assert(hosts_view(hosts@) =~= hmap.union_prefer_right(
                        flush(cvf, Map::empty()),
                    ));
                }
            },
        }
        proof {
            assert(pdeep + parse_from(ls.skip(n as int), cvf).plan =~= pdeep);
        }
        let r = Sshc { contents, hosts };
        proof {
            assert(r@ =~= parse_doc(ls));
        }
        r
    }
}

/// The mathematical view of the in-progress host accumulator.
spec fn cur_view(c: Option<(String, Vec<Parameter>)>) -> Option<(Seq<char>, Seq<
    ParamView,
>)> {
    match c {
        None => None,
        Some(hp) => Some((hp.0@, hp.1.deep_view())),
    }
}


/// `key_index` never returns a value below `-1`.
proof fn lemma_key_index_ge(ps: Seq<ParamView>, key: Seq<char>)
    ensures
        key_index(ps, key) >= -1,
    decreases ps.len(),
{
    if ps.len() > 0 && ps[0].0 != key {
        lemma_key_index_ge(ps.skip(1), key);
    }
}

/// Finds the first parameter with the given key.
fn find_key(ps: &Vec<Parameter>, key: &str) -> (r: Option<usize>)
    ensures
        match r {
            Some(j) => j == key_index(ps.deep_view(), key@) && j < ps.len(),
            None => key_index(ps.deep_view(), key@) == -1,
        },
{
    let ghost dv = ps.deep_view();
    let n: usize = ps.len();
    let mut i: usize = 0;
    proof {
        assert(dv.skip(0) =~= dv);
        assert(dv.len() == n);
        lemma_key_index_ge(dv, key@);
    }
    while i < n
        invariant
            i <= n,
            n == ps.len(),
            dv == ps.deep_view(),
            dv.len() == n,
            key_index(dv, key@) == (if key_index(dv.skip(i as int), key@) < 0 {
                -1int
            } else {
                i + key_index(dv.skip(i as int), key@)
            }),
        decreases n - i,
    {
        proof {
            assert(dv.skip(i as int)[0] == dv[i as int]);
            assert(dv[i as int] == ps@[i as int].deep_view());
        }
        if str_eq(ps[i].0.as_str(), key) {
            proof {
                assert(dv[i as int].0 == key@);
                assert(key_index(dv.skip(i as int), key@) == 0);
            }
            return Some(i);
        }
        proof {
            assert(dv[i as int].0 != key@);
            assert(dv.skip(i as int).skip(1) =~= dv.skip(i as int + 1));
            lemma_key_index_ge(dv.skip(i as int + 1), key@);
        }
        i = i + 1;
    }
    proof {
        assert(dv.skip(n as int) =~= Seq::<ParamView>::empty());
    }
    None
}

/// Appending an entry to a plan appends its listing line.
proof fn lemma_list_from_snoc(
    plan: Seq<LineKind>,
    k: LineKind,
    hosts: Map<Seq<char>, Seq<ParamView>>,
    pat: Seq<char>,
)
    ensures
        list_from(plan.push(k), hosts, pat) == list_from(plan, hosts, pat) + list_entry(
            k,
            hosts,
            pat,
        ),
    decreases plan.len(),
{
    if plan.len() == 0 {
        assert(plan.push(k)[0] == k);
        assert(plan.push(k).skip(1) =~= Seq::<LineKind>::empty());
        assert(list_from(plan.push(k).skip(1), hosts, pat) == Seq::<char>::empty());
        assert(list_from(plan, hosts, pat) == Seq::<char>::empty());
        assert(list_entry(k, hosts, pat) + Seq::<char>::empty() =~= list_entry(k, hosts, pat));
        assert(Seq::<char>::empty() + list_entry(k, hosts, pat) =~= list_entry(k, hosts, pat));
    } else {
        assert(plan.push(k)[0] == plan[0]);
        assert(plan.push(k).skip(1) =~= plan.skip(1).push(k));
        lemma_list_from_snoc(plan.skip(1), k, hosts, pat);
        assert(list_entry(plan[0], hosts, pat) + (list_from(plan.skip(1), hosts, pat)
            + list_entry(k, hosts, pat)) =~= (list_entry(plan[0], hosts, pat) + list_from(
            plan.skip(1),
            hosts,
            pat,
        )) + list_entry(k, hosts, pat));
    }
}

/// Appending a parameter to a list appends its rendered line, if any.
proof fn lemma_param_lines_snoc(ps: Seq<ParamView>, p: ParamView)
    ensures
        param_lines(ps.push(p)) == param_lines(ps) + (match p.1 {
            Some(v) => seq!["  "@ + p.0 + " "@ + v],
            None => Seq::<Seq<char>>::empty(),
        }),
    decreases ps.len(),
{
    let tail = (match p.1 {
        Some(v) => seq!["  "@ + p.0 + " "@ + v],
        None => Seq::<Seq<char>>::empty(),
    });
    if ps.len() == 0 {
        assert(ps.push(p)[0] == p);
        assert(ps.push(p).skip(1) =~= Seq::<ParamView>::empty());
        assert(param_lines(ps.push(p).skip(1)) == Seq::<Seq<char>>::empty());
        match p.1 {
            Some(v) => {
                assert(param_lines(ps.push(p)) =~= seq!["  "@ + p.0 + " "@ + v]);
            },
            None => {
                assert(param_lines(ps.push(p)) =~= Seq::<Seq<char>>::empty());
            },
        }
        assert(param_lines(ps) + tail =~= tail);
    } else {
        assert(ps.push(p)[0] == ps[0]);
        assert(ps.push(p).skip(1) =~= ps.skip(1).push(p));
        lemma_param_lines_snoc(ps.skip(1), p);
        match ps[0].1 {
            Some(v0) => {
                assert(seq!["  "@ + ps[0].0 + " "@ + v0] + (param_lines(ps.skip(1)) + tail)
                    =~= (seq!["  "@ + ps[0].0 + " "@ + v0] + param_lines(ps.skip(1))) + tail);
            },
            None => {},
        }
    }
}

/// Appending an entry to a plan appends its rendered lines.
proof fn lemma_plan_lines_snoc(
    plan: Seq<LineKind>,
    k: LineKind,
    hosts: Map<Seq<char>, Seq<ParamView>>,
)
    ensures
        plan_lines(plan.push(k), hosts) == plan_lines(plan, hosts) + block_lines(k, hosts),
    decreases plan.len(),
{
    if plan.len() == 0 {
        assert(plan.push(k)[0] == k);
        assert(plan.push(k).skip(1) =~= Seq::<LineKind>::empty());
        assert(plan_lines(plan.push(k).skip(1), hosts) == Seq::<Seq<char>>::empty());
        assert(plan_lines(plan, hosts) == Seq::<Seq<char>>::empty());
        assert(block_lines(k, hosts) + Seq::<Seq<char>>::empty() =~= block_lines(k, hosts));
        assert(Seq::<Seq<char>>::empty() + block_lines(k, hosts) =~= block_lines(k, hosts));
    } else {
        assert(plan.push(k)[0] == plan[0]);
        assert(plan.push(k).skip(1) =~= plan.skip(1).push(k));
        lemma_plan_lines_snoc(plan.skip(1), k, hosts);
        assert(block_lines(plan[0], hosts) + (plan_lines(plan.skip(1), hosts) + block_lines(
            k,
            hosts,
        )) =~= (block_lines(plan[0], hosts) + plan_lines(plan.skip(1), hosts)) + block_lines(
            k,
            hosts,
        ));
    }
}

/// Joining a single line appends one newline to it.
proof fn lemma_join_one(l: Seq<char>)
    ensures
        join_lines(seq![l]) == l + seq!['\n'],
{
    let ls = seq![l];
    assert(ls.skip(1) =~= Seq::<Seq<char>>::empty());
    assert(join_lines(ls.skip(1)) == Seq::<char>::empty());
    assert(join_lines(ls) =~= l + seq!['\n']);
}

/// Joining distributes over concatenation of line sequences.
proof fn lemma_join_lines_add(a: Seq<Seq<char>>, b: Seq<Seq<char>>)
    ensures
        join_lines(a + b) == join_lines(a) + join_lines(b),
    decreases a.len(),
{
    if a.len() == 0 {
        assert(a + b =~= b);
        assert(Seq::<char>::empty() + join_lines(b) =~= join_lines(b));
    } else {
        assert((a + b)[0] == a[0]);
        assert((a + b).skip(1) =~= a.skip(1) + b);
        lemma_join_lines_add(a.skip(1), b);
        assert(a[0] + seq!['\n'] + (join_lines(a.skip(1)) + join_lines(b)) =~= (a[0] + seq![
            '\n',
        ] + join_lines(a.skip(1))) + join_lines(b));
    }
}

impl Sshc {
    /// Renders the document back to its full text.
    pub fn write(&self) -> (r: String)
        ensures
            r@ == render_doc(self@),
    {
        let ghost plan = self@.plan;
        let ghost hv = self@.hosts;
        let mut out = String::new();
        let n: usize = self.contents.len();
        let mut i: usize = 0;
        proof {
            reveal_strlit("\n");
            assert("\n"@ =~= seq!['\n']);
            assert(plan.take(0) =~= Seq::<LineKind>::empty());
            assert(plan.len() == n);
        }
        while i < n
            invariant
                i <= n,
                n == self.contents.len(),
                plan == self@.plan,
                hv == self@.hosts,
                plan.len() == n,
                "\n"@ == seq!['\n'],
                out@ == join_lines(plan_lines(plan.take(i as int), hv)),
            decreases n - i,
        {
            let ghost done = plan_lines(plan.take(i as int), hv);
            proof {
                assert(plan[i as int] == self.contents@[i as int].deep_view());
                assert(plan.take(i as int).push(plan[i as int]) =~= plan.take(i as int + 1));
                lemma_plan_lines_snoc(plan.take(i as int), plan[i as int], hv);
            }
            match &self.contents[i] {
                Content::Empty => {
                    out.append("\n");
                    proof {
                        let bl = block_lines(LineKind::Empty, hv);
                        assert(bl =~= seq![Seq::<char>::empty()]);
                        lemma_join_one(Seq::<char>::empty());
                        assert(join_lines(bl) =~= "\n"@);
                        lemma_join_lines_add(done, bl);
                        assert(done + bl =~= plan_lines(plan.take(i as int + 1), hv));
                    }
                },
                Content::Comment(t) => {
                    out.append(t.as_str());
                    out.append("\n");
                    proof {
                        let bl = block_lines(LineKind::Comment(t@), hv);
                        assert(bl =~= seq![t@]);
                        lemma_join_one(t@);
                        assert(join_lines(bl) =~= t@ + "\n"@);
                        lemma_join_lines_add(done, bl);
                        assert(done + bl =~= plan_lines(plan.take(i as int + 1), hv));
                        assert(out@ =~= join_lines(plan_lines(plan.take(i as int + 1), hv)));
                    }
                },
                Content::Host(h) => {
                    out.append("Host ");
                    out.append(h.as_str());
                    out.append("\n");
                    let ghost ep = entry_params(hv, h@);
                    let ghost base = out@;
                    proof {
                        assert(base =~= join_lines(done) + ("Host "@ + h@ + "\n"@)) by {
                            assert(join_lines(done) + ("Host "@ + h@ + "\n"@) =~= ((join_lines(
                                done,
                            ) + "Host "@) + h@) + "\n"@);
                        }
                    }
                    match self.hosts.get(h.as_str()) {
                        Some(ps) => {
                            proof {
                                assert(ep == ps.deep_view());
                            }
                            let ghost pdv = ps.deep_view();
                            let m: usize = ps.len();
                            let mut j: usize = 0;
                            proof {
                                assert(pdv.take(0) =~= Seq::<ParamView>::empty());
                                assert(pdv.len() == m);
                                assert(out@ =~= base + join_lines(param_lines(pdv.take(0))));
                            }
                            while j < m
                                invariant
                                    j <= m,
                                    m == ps.len(),
                                    pdv == ps.deep_view(),
                                    pdv.len() == m,
                                    "\n"@ == seq!['\n'],
                                    out@ == base + join_lines(param_lines(pdv.take(j as int))),
                                decreases m - j,
                            {
                                proof {
                                    assert(pdv[j as int] == ps@[j as int].deep_view());
                                    assert(pdv.take(j as int).push(pdv[j as int]) =~= pdv.take(
                                        j as int + 1,
                                    ));
                                    lemma_param_lines_snoc(pdv.take(j as int), pdv[j as int]);
                                }
                                match &ps[j].1 {
                                    Some(v) => {
                                        out.append("  ");
                                        out.append(ps[j].0.as_str());
                                        out.append(" ");
                                        out.append(v.as_str());
                                        out.append("\n");
                                        proof {
                                            let pj = pdv[j as int];
                                            let line = "  "@ + pj.0 + " "@ + pj.1->0;
                                            let pl = param_lines(pdv.take(j as int));
                                            assert(param_lines(pdv.take(j as int + 1)) =~= pl
                                                + seq![line]);
                                            lemma_join_lines_add(pl, seq![line]);
                                            lemma_join_one(line);
                                            assert(join_lines(seq![line]) =~= line + "\n"@);
                                            assert(out@ =~= base + (join_lines(pl) + (line
                                                + "\n"@)));
                                        }
                                    },
                                    None => {
                                        proof {
                                            assert(param_lines(pdv.take(j as int + 1))
                                                =~= param_lines(pdv.take(j as int)));
                                        }
                                    },
                                }
                                j = j + 1;
                            }
                            proof {
                                assert(pdv.take(m as int) =~= pdv);
                            }
                        },
                        None => {
                            proof {
                                assert(ep =~= Seq::<ParamView>::empty());
                                assert(out@ =~= base + join_lines(param_lines(ep)));
                            }
                        },
                    }
                    out.append("\n");
                    proof {
                        let bl = block_lines(LineKind::Host(h@), hv);
                        let pl = param_lines(ep);
                        assert(bl =~= seq!["Host "@ + h@] + pl + seq![Seq::<char>::empty()]);
                        lemma_join_lines_add(seq!["Host "@ + h@] + pl, seq![Seq::<char>::empty()]);
                        lemma_join_lines_add(seq!["Host "@ + h@], pl);
                        assert((seq!["Host "@ + h@] + pl) + seq![Seq::<char>::empty()] =~= bl);
                        lemma_join_one("Host "@ + h@);
                        assert(join_lines(seq!["Host "@ + h@]) =~= "Host "@ + h@ + "\n"@);
                        lemma_join_one(Seq::<char>::empty());
                        assert(join_lines(seq![Seq::<char>::empty()]) =~= "\n"@);
                        lemma_join_lines_add(done, bl);
                        assert(done + bl =~= plan_lines(plan.take(i as int + 1), hv));
                        assert(out@ =~= join_lines(plan_lines(plan.take(i as int + 1), hv)));
                    }
                },
            }
            i = i + 1;
        }
        proof {
            assert(plan.take(n as int) =~= plan);
        }
        out
    }

    /// Produces the listing lines for every host whose name contains the
    /// pattern, in plan order.
    pub fn list(&mut self, name: &str) -> (r: String)
        ensures
            *final(self) == *old(self),
            r@ == list_spec(old(self)@, name@),
    {
        let ghost plan = self@.plan;
        let ghost hv = self@.hosts;
        let mut out = String::new();
        let n: usize = self.contents.len();
        let mut i: usize = 0;
        proof {
            assert(plan.take(0) =~= Seq::<LineKind>::empty());
            assert(plan.len() == n);
        }
        while i < n
            invariant
                i <= n,
                n == self.contents.len(),
                plan == self@.plan,
                hv == self@.hosts,
                plan.len() == n,
                out@ == list_from(plan.take(i as int), hv, name@),
            decreases n - i,
        {
            proof {
                assert(plan[i as int] == self.contents@[i as int].deep_view());
                assert(plan.take(i as int).push(plan[i as int]) =~= plan.take(i as int + 1));
                lemma_list_from_snoc(plan.take(i as int), plan[i as int], hv, name@);
            }
            match &self.contents[i] {
                Content::Host(h) => {
                    if contains_str(h.as_str(), name) {
                        match self.hosts.get(h.as_str()) {
                            Some(ps) => {
                                let ghost base = out@;
                                out.append("  ");
                                out.append(h.as_str());
                                out.append(" -> ");
                                let ghost pdv = ps.deep_view();
                                proof {
                                    assert(pdv == hv[h@]);
                                }
                                match find_key(ps, "HostName") {
                                    Some(j) => {
                                        match &ps[j].1 {
                                            Some(v) => {
                                                out.append(v.as_str());
                                                proof {
                                                    assert(pdv[j as int] == ps@[j as int].deep_view());
                                                    assert(ps@[j as int].1 == Some(*v));
                                                    assert(pdv[j as int].1 == Some(v@));
                                                    assert(key_index(pdv, "HostName"@) == j);
                                                    assert(hostname_value(pdv) == v@);
                                                }
                                            },
                                            None => {
                                                proof {
                                                    assert(pdv[j as int] == ps@[j as int].deep_view());
                                                    assert(ps@[j as int].1 is None);
                                                    assert(pdv[j as int].1 is None);
                                                    assert(hostname_value(pdv)
                                                        == Seq::<char>::empty());
                                                }
                                            },
                                        }
                                    },
                                    None => {
                                        proof {
                                            assert(hostname_value(pdv) == Seq::<char>::empty());
                                        }
                                    },
                                }
                                out.append("\n");
                                proof {
                                    let entry = list_entry(plan[i as int], hv, name@);
                                    assert(entry == "  "@ + h@ + " -> "@ + hostname_value(pdv)
                                        + "\n"@);
                                    assert(out@ =~= base + entry);
                                    assert(out@ =~= list_from(plan.take(i as int + 1), hv, name@));
                                }
                            },
                            None => {
                                proof {
                                    assert(list_entry(plan[i as int], hv, name@)
                                        =~= Seq::<char>::empty());
                                    assert(out@ =~= list_from(plan.take(i as int + 1), hv, name@));
                                }
                            },
                        }
                    } else {
                        proof {
                            assert(list_entry(plan[i as int], hv, name@) =~= Seq::<char>::empty());
                            assert(out@ =~= list_from(plan.take(i as int + 1), hv, name@));
                        }
                    }
                },
                _ => {
                    proof {
                        assert(list_entry(plan[i as int], hv, name@) =~= Seq::<char>::empty());
                        assert(out@ =~= list_from(plan.take(i as int + 1), hv, name@));
                    }
                },
            }
            i = i + 1;
        }
        proof {
            assert(plan.take(n as int) =~= plan);
        }
        out
    }

    /// Appends a new marker for `name` and inserts its parameter list,
    /// overwriting any prior table entry of that name.
    pub fn add(&mut self, name: &str, parameters: Vec<Parameter>)
        ensures
            final(self)@ == add_spec(old(self)@, name@, parameters.deep_view()),
    {
        let ghost pv = parameters.deep_view();
        self.contents.push(Content::Host(name.to_owned()));
        self.hosts.insert(name.to_owned(), parameters);
        proof {
            assert(self@.plan =~= old(self)@.plan.push(LineKind::Host(name@)));
            assert(self@.hosts =~= old(self)@.hosts.insert(name@, pv));
            assert(self@ =~= add_spec(old(self)@, name@, pv));
        }
    }

    /// Edits the host named `name`: replaces its parameter list when
    /// `force` is set, merges otherwise; a no-op for an unknown name.
    pub fn edit(&mut self, name: &str, parameters: Vec<Parameter>, force: bool)
        ensures
            final(self)@ == edit_spec(old(self)@, name@, parameters.deep_view(), force),
    {
        let ghost pv = parameters.deep_view();
        if force {
            if self.hosts.contains_key(name) {
                self.hosts.insert(name.to_owned(), parameters);
                proof {
                    assert(self@.hosts =~= old(self)@.hosts.insert(name@, pv));
                    assert(self@ =~= edit_spec(old(self)@, name@, pv, force));
                }
            } else {
                proof {
                    assert(self@ =~= edit_spec(old(self)@, name@, pv, force));
                }
            }
        } else {
            let existing = self.hosts.get(name);
            match existing {
                Some(ps) => {
                    let ghost orig = ps.deep_view();
                    proof {
                        assert(orig == old(self)@.hosts[name@]);
                    }
                    let mut merged = copy_params(ps);
                    let n: usize = parameters.len();
                    let mut i: usize = 0;
                    while i < n
                        invariant
                            i <= n,
                            n == parameters.len(),
                            pv == parameters.deep_view(),
                            pv.len() == n,
                            merged.deep_view() == merge_upto(orig, pv, i as int),
                        decreases n - i,
                    {
                        let p = clone_param(&parameters[i]);
                        proof {
                            assert(pv[i as int] == parameters@[i as int].deep_view());
                            assert(p.deep_view() == pv[i as int]);
                        }
                        let ghost before = merged.deep_view();
                        match find_key(&merged, p.0.as_str()) {
                            Some(j) => {
                                merged.set(j, p);
                                proof {
                                    assert(merged.deep_view() =~~= before.update(
                                        key_index(before, pv[i as int].0),
                                        pv[i as int],
                                    ));
                                    assert(merged.deep_view() == merge_one(before, pv[i as int]));
                                }
                            },
                            None => {
                                merged.push(p);
                                proof {
                                    assert(merged.deep_view() =~~= before.push(pv[i as int]));
                                    assert(merged.deep_view() == merge_one(before, pv[i as int]));
                                }
                            },
                        }
                        i = i + 1;
                    }
                    self.hosts.insert(name.to_owned(), merged);
                    proof {
                        assert(self@.hosts =~= old(self)@.hosts.insert(
                            name@,
                            merge_params(orig, pv),
                        ));
                        assert(self@ =~= edit_spec(old(self)@, name@, pv, force));
                    }
                },
                None => {
                    proof {
                        assert(self@ =~= edit_spec(old(self)@, name@, pv, force));
                    }
                },
            }
        }
    }

    /// Removes the table entry for `name` and the first matching marker
    /// from the plan; a no-op on both sides where nothing matches.
    pub fn delete(&mut self, name: &str)
        ensures
            final(self)@ == delete_spec(old(self)@, name@),
    {
        let ghost plan0 = self@.plan;
        self.hosts.remove(name);
        proof {
            assert(self@.plan =~= plan0);
            assert(self@.hosts =~= old(self)@.hosts.remove(name@));
        }
        let idx = self.find_index(name);
        match idx {
            Some(index) => {
                self.contents.remove(index);
                proof {
                    assert(self@.plan =~~= plan0.remove(find_marker(plan0, name@)));
                    assert(self@ =~= delete_spec(old(self)@, name@));
                }
            },
            None => {
                proof {
                    assert(self@ =~= delete_spec(old(self)@, name@));
                }
            },
        }
    }

    /// The index in the plan of the first marker named `name`, if any.
    pub fn find_index(&self, name: &str) -> (r: Option<usize>)
        ensures
            match r {
                Some(i) => i == find_marker(self@.plan, name@) && i < self@.plan.len(),
                None => find_marker(self@.plan, name@) == -1,
            },
    {
        let ghost plan = self@.plan;
        let n: usize = self.contents.len();
        let mut i: usize = 0;
        proof {
            assert(plan.skip(0) =~= plan);
            assert(plan.len() == n);
            lemma_find_marker_ge(plan, name@);
        }
        while i < n
            invariant
                i <= n,
                n == self.contents.len(),
                plan == self@.plan,
                plan.len() == n,
                find_marker(plan, name@) == (if find_marker(plan.skip(i as int), name@) < 0 {
                    -1int
                } else {
                    i + find_marker(plan.skip(i as int), name@)
                }),
            decreases n - i,
        {
            proof {
                assert(plan.skip(i as int)[0] == plan[i as int]);
                assert(plan[i as int] == self.contents@[i as int].deep_view());
            }
            let found = match &self.contents[i] {
                Content::Host(h) => str_eq(h.as_str(), name),
                _ => false,
            };
            if found {
                proof {
                    assert(plan[i as int] == LineKind::Host(name@));
                    assert(find_marker(plan.skip(i as int), name@) == 0);
                }
                return Some(i);
            }
            proof {
                assert(plan[i as int] != LineKind::Host(name@));
                assert(plan.skip(i as int).skip(1) =~= plan.skip(i as int + 1));
                lemma_find_marker_ge(plan.skip(i as int + 1), name@);
            }
            i = i + 1;
        }
        proof {
            assert(plan.skip(n as int) =~= Seq::<LineKind>::empty());
        }
        None
    }
}

} // verus!
