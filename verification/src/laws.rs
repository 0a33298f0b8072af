//! Laws relating the document operations: what a sequence of operations
//! does to the plan and the table, and that rendering and parsing are a
//! round trip on well-formed documents.

use vstd::prelude::*;
use crate::text::{is_space, ltrim, trim, toks, tokens};
use crate::sshc::{
    Doc, LineKind, ParamView, add_spec, delete_spec, find_marker, lemma_find_marker_ge,
    block_lines, param_lines, plan_lines, doc_lines, render_doc, entry_params, parse_from,
    parse_doc, flush, is_host_line, host_name_of, is_comment_line, is_blank_line,
};

verus! {

/// Pushing a marker for an absent name puts its first occurrence at the
/// end of the plan.
proof fn lemma_find_marker_push_absent(plan: Seq<LineKind>, name: Seq<char>)
    requires
        find_marker(plan, name) == -1,
    ensures
        find_marker(plan.push(LineKind::Host(name)), name) == plan.len(),
    decreases plan.len(),
{
    let p2 = plan.push(LineKind::Host(name));
    if plan.len() == 0 {
        assert(p2[0] == LineKind::Host(name));
    } else {
        assert(p2[0] == plan[0]);
        assert(plan[0] != LineKind::Host(name));
        lemma_find_marker_ge(plan.skip(1), name);
        assert(find_marker(plan.skip(1), name) == -1);
        assert(p2.skip(1) =~= plan.skip(1).push(LineKind::Host(name)));
        lemma_find_marker_push_absent(plan.skip(1), name);
    }
}

/// Pushing any entry after a present marker leaves its first occurrence
/// where it was.
proof fn lemma_find_marker_push_present(plan: Seq<LineKind>, k: LineKind, name: Seq<char>)
    requires
        find_marker(plan, name) >= 0,
    ensures
        find_marker(plan.push(k), name) == find_marker(plan, name),
    decreases plan.len(),
{
    let p2 = plan.push(k);
    assert(plan.len() > 0);
    assert(p2[0] == plan[0]);
    if plan[0] == LineKind::Host(name) {
    } else {
        lemma_find_marker_ge(plan.skip(1), name);
        assert(find_marker(plan.skip(1), name) >= 0);
        assert(p2.skip(1) =~= plan.skip(1).push(k));
        lemma_find_marker_push_present(plan.skip(1), k, name);
    }
}

/// Adding the same host name twice and then deleting it once removes the
/// table entry entirely and leaves exactly one dangling marker, which
/// renders as a bare header with no parameter lines.
pub proof fn lemma_add_twice_delete_dangles(
    d: Doc,
    name: Seq<char>,
    ps1: Seq<ParamView>,
    ps2: Seq<ParamView>,
)
    requires
        find_marker(d.plan, name) == -1,
        !d.hosts.dom().contains(name),
    ensures
        ({
            let d2 = delete_spec(add_spec(add_spec(d, name, ps1), name, ps2), name);
            &&& d2.plan == d.plan.push(LineKind::Host(name))
            &&& d2.hosts == d.hosts
            &&& block_lines(LineKind::Host(name), d2.hosts) == seq![
                "Host "@ + name,
                Seq::<char>::empty(),
            ]
        }),
{
    let da = add_spec(add_spec(d, name, ps1), name, ps2);
    let d2 = delete_spec(da, name);
    lemma_find_marker_push_absent(d.plan, name);
    lemma_find_marker_push_present(
        d.plan.push(LineKind::Host(name)),
        LineKind::Host(name),
        name,
    );
    assert(find_marker(da.plan, name) == d.plan.len());
    assert(d2.plan =~= d.plan.push(LineKind::Host(name)));
    assert(d2.hosts =~= d.hosts);
    assert(!d2.hosts.dom().contains(name));
    assert(entry_params(d2.hosts, name) =~= Seq::<ParamView>::empty());
    assert(param_lines(Seq::<ParamView>::empty()) =~= Seq::<Seq<char>>::empty());
    assert(block_lines(LineKind::Host(name), d2.hosts) =~= seq![
        "Host "@ + name,
        Seq::<char>::empty(),
    ]);
}


// ---------------------------------------------------------------------------
// Round trip: rendering and re-parsing
// ---------------------------------------------------------------------------

/// A token: nonempty, with no whitespace characters.
pub open spec fn token_like(s: Seq<char>) -> bool {
    s.len() > 0 && forall|i: int| 0 <= i < s.len() ==> !is_space(#[trigger] s[i])
}

/// A parameter whose rendered line parses back to itself; parameters
/// without a value render to nothing and need no condition.
pub open spec fn wf_param(p: ParamView) -> bool {
    p.1 is Some ==> token_like(p.0) && token_like(p.1->0)
}

/// A host name that its rendered header line reproduces: already trimmed,
/// and on a single line.
pub open spec fn wf_name(h: Seq<char>) -> bool {
    trim(h) == h && forall|i: int| 0 <= i < h.len() ==> #[trigger] h[i] != '\n'
}

/// A comment entry that parses back to itself verbatim.
pub open spec fn wf_comment(t: Seq<char>) -> bool {
    &&& is_comment_line(t)
    &&& !is_host_line(t)
    &&& forall|i: int| 0 <= i < t.len() ==> #[trigger] t[i] != '\n'
}

/// The parameters that survive rendering: those carrying a value.
pub open spec fn keep_some(ps: Seq<ParamView>) -> Seq<ParamView>
    decreases ps.len(),
{
    if ps.len() == 0 {
        Seq::empty()
    } else if ps[0].1 is Some {
        seq![ps[0]] + keep_some(ps.skip(1))
    } else {
        keep_some(ps.skip(1))
    }
}

/// Whether a marker named `n` occurs in the plan.
pub open spec fn has_marker(plan: Seq<LineKind>, n: Seq<char>) -> bool {
    exists|i: int| 0 <= i < plan.len() && #[trigger] plan[i] == LineKind::Host(n)
}

/// The parameter table that re-parsing rendered lines produces: one entry
/// per marker name, holding its value-carrying parameters.
pub open spec fn reparsed_hosts(
    plan: Seq<LineKind>,
    hosts: Map<Seq<char>, Seq<ParamView>>,
) -> Map<Seq<char>, Seq<ParamView>> {
    Map::new(
        |n: Seq<char>| has_marker(plan, n),
        |n: Seq<char>| keep_some(entry_params(hosts, n)),
    )
}

/// A marker occurs in a nonempty plan exactly when it is first or occurs
/// in the rest.
proof fn lemma_has_marker_cons(plan: Seq<LineKind>, n: Seq<char>)
    requires
        plan.len() > 0,
    ensures
        has_marker(plan, n) <==> (plan[0] == LineKind::Host(n) || has_marker(plan.skip(1), n)),
{
    if has_marker(plan, n) {
        let i = choose|i: int| 0 <= i < plan.len() && #[trigger] plan[i] == LineKind::Host(n);
        if i > 0 {
            assert(plan.skip(1)[i - 1] == LineKind::Host(n));
        }
    }
    if has_marker(plan.skip(1), n) {
        let j = choose|j: int|
            0 <= j < plan.skip(1).len() && #[trigger] plan.skip(1)[j] == LineKind::Host(n);
        assert(plan[j + 1] == LineKind::Host(n));
    }
}

/// Trimming is unaffected by one leading space.
proof fn lemma_trim_leading_space(c: char, s: Seq<char>)
    requires
        is_space(c),
    ensures
        trim(seq![c] + s) == trim(s),
{
    let cs = seq![c] + s;
    assert(cs[0] == c);
    assert(cs.skip(1) =~= s);
    assert(ltrim(cs) == ltrim(s));
}

/// Reading a run of non-whitespace characters extends the current token.
proof fn lemma_toks_run(w: Seq<char>, rest: Seq<char>, cur: Seq<char>)
    requires
        forall|i: int| 0 <= i < w.len() ==> !is_space(#[trigger] w[i]),
    ensures
        toks(w + rest, cur) == toks(rest, cur + w),
    decreases w.len(),
{
    if w.len() == 0 {
        assert(w + rest =~= rest);
        assert(cur + w =~= cur);
    } else {
        let t = w + rest;
        assert(t[0] == w[0]);
        assert(!is_space(t[0]));
        assert(t.skip(1) =~= w.skip(1) + rest);
        lemma_toks_run(w.skip(1), rest, cur.push(w[0]));
        assert(cur.push(w[0]) + w.skip(1) =~= cur + w);
    }
}

/// Whitespace before a token is skipped when no token is in progress.
proof fn lemma_toks_ws(w: Seq<char>, rest: Seq<char>)
    requires
        forall|i: int| 0 <= i < w.len() ==> is_space(#[trigger] w[i]),
    ensures
        toks(w + rest, Seq::empty()) == toks(rest, Seq::empty()),
    decreases w.len(),
{
    if w.len() == 0 {
        assert(w + rest =~= rest);
    } else {
        let t = w + rest;
        assert(t[0] == w[0]);
        assert(t.skip(1) =~= w.skip(1) + rest);
        lemma_toks_ws(w.skip(1), rest);
    }
}

/// A rendered parameter line splits into exactly its key and value.
proof fn lemma_param_line_tokens(k: Seq<char>, v: Seq<char>)
    requires
        token_like(k),
        token_like(v),
    ensures
        tokens("  "@ + k + " "@ + v) == seq![k, v],
{
    reveal_strlit("  ");
    reveal_strlit(" ");
    let line = "  "@ + k + " "@ + v;
    let tail = k + (" "@ + v);
    assert(line =~= "  "@ + tail);
    assert(forall|i: int| 0 <= i < "  "@.len() ==> is_space(#[trigger] "  "@[i]));
    lemma_toks_ws("  "@, tail);
    lemma_toks_run(k, " "@ + v, Seq::empty());
    assert(Seq::<char>::empty() + k =~= k);
    let sv = " "@ + v;
    assert(sv[0] == ' ');
    assert(sv.skip(1) =~= v);
    assert(toks(sv, k) == seq![k] + toks(v, Seq::empty()));
    lemma_toks_run(v, Seq::empty(), Seq::empty());
    assert(v + Seq::<char>::empty() =~= v);
    assert(Seq::<char>::empty() + v =~= v);
    assert(toks(v, Seq::empty()) == seq![v]);
    assert(tokens(line) =~= seq![k, v]);
}

/// Parsing the rendered lines of a parameter list accumulates exactly its
/// value-carrying parameters.
proof fn lemma_parse_param_lines(
    ps: Seq<ParamView>,
    tail: Seq<Seq<char>>,
    n: Seq<char>,
    acc: Seq<ParamView>,
)
    requires
        forall|i: int| 0 <= i < ps.len() ==> wf_param(#[trigger] ps[i]),
    ensures
        parse_from(param_lines(ps) + tail, Some((n, acc))) == parse_from(
            tail,
            Some((n, acc + keep_some(ps))),
        ),
    decreases ps.len(),
{
    reveal_strlit("  ");
    if ps.len() == 0 {
        assert(param_lines(ps) + tail =~= tail);
        assert(acc + keep_some(ps) =~= acc);
    } else {
        let p = ps[0];
        assert(wf_param(p));
        match p.1 {
            Some(v) => {
                let line = "  "@ + p.0 + " "@ + v;
                let lines = param_lines(ps) + tail;
                assert(param_lines(ps) == seq![line] + param_lines(ps.skip(1)));
                assert(lines[0] == line);
                assert(lines.skip(1) =~= param_lines(ps.skip(1)) + tail);
                assert(line[0] == ' ');
                assert(!is_host_line(line));
                lemma_param_line_tokens(p.0, v);
                assert(tokens(line).len() == 2);
                assert((tokens(line)[0], Some(tokens(line)[1])) == p);
                lemma_parse_param_lines(ps.skip(1), tail, n, acc.push(p));
                assert(keep_some(ps) == seq![p] + keep_some(ps.skip(1)));
                assert(acc.push(p) + keep_some(ps.skip(1)) =~= acc + keep_some(ps));
            },
            None => {
                assert(param_lines(ps) == param_lines(ps.skip(1)));
                assert(keep_some(ps) == keep_some(ps.skip(1)));
                lemma_parse_param_lines(ps.skip(1), tail, n, acc);
            },
        }
    }
}

/// Well-formed host names and attached parameter lists for every marker.
pub open spec fn wf_markers(plan: Seq<LineKind>, hosts: Map<Seq<char>, Seq<ParamView>>) -> bool {
    forall|i: int|
        0 <= i < plan.len() ==> ((#[trigger] plan[i]) matches LineKind::Host(h) ==> wf_name(h)
            && (forall|j: int|
            0 <= j < entry_params(hosts, h).len() ==> wf_param(
                #[trigger] entry_params(hosts, h)[j],
            )))
}

/// Parsing the rendered lines of a marker-only plan suffix rebuilds the
/// same markers and their value-carrying parameters.
proof fn lemma_parse_markers(
    plan: Seq<LineKind>,
    hosts: Map<Seq<char>, Seq<ParamView>>,
    cur: Option<(Seq<char>, Seq<ParamView>)>,
)
    requires
        forall|i: int| 0 <= i < plan.len() ==> (#[trigger] plan[i]) is Host,
        wf_markers(plan, hosts),
    ensures
        parse_from(plan_lines(plan, hosts), cur) == (Doc {
            plan: plan,
            hosts: flush(cur, reparsed_hosts(plan, hosts)),
        }),
    decreases plan.len(),
{
    reveal_strlit("Host ");
    if plan.len() == 0 {
        assert(plan_lines(plan, hosts) =~= Seq::<Seq<char>>::empty());
        assert(reparsed_hosts(plan, hosts) =~= Map::<Seq<char>, Seq<ParamView>>::empty());
        assert(parse_from(plan_lines(plan, hosts), cur) =~= Doc {
            plan: plan,
            hosts: flush(cur, reparsed_hosts(plan, hosts)),
        });
    } else {
        match plan[0] {
            LineKind::Host(h) => {
                let header = "Host "@ + h;
                let eps = entry_params(hosts, h);
                let lines = plan_lines(plan, hosts);
                let rest_lines = plan_lines(plan.skip(1), hosts);
                let tail1 = seq![Seq::<char>::empty()] + rest_lines;
                assert(block_lines(plan[0], hosts) == seq![header] + param_lines(eps) + seq![
                    Seq::<char>::empty(),
                ]);
                assert(lines[0] == header);
                assert(lines.skip(1) =~= param_lines(eps) + tail1);
                assert(header[0] == 'H' && header[1] == 'o' && header[2] == 's' && header[3]
                    == 't' && header[4] == ' ');
                assert(is_host_line(header));
                assert(wf_name(h));
                assert(header.skip(4) =~= seq![' '] + h);
                lemma_trim_leading_space(' ', h);
                assert(host_name_of(header) == h);
                lemma_parse_param_lines(eps, tail1, h, Seq::empty());
                assert(Seq::<ParamView>::empty() + keep_some(eps) =~= keep_some(eps));
                assert(tail1[0] =~= Seq::<char>::empty());
                assert(!is_host_line(tail1[0]));
                assert(tokens(tail1[0]).len() == 0);
                assert(tail1.skip(1) =~= rest_lines);
                assert(forall|i: int|
                    0 <= i < plan.skip(1).len() ==> (#[trigger] plan.skip(1)[i]) is Host);
                assert(wf_markers(plan.skip(1), hosts)) by {
                    assert forall|i: int|
                        0 <= i < plan.skip(1).len() implies ((#[trigger] plan.skip(1)[i]) matches
                        LineKind::Host(m) ==> wf_name(m) && (forall|j: int|
                        0 <= j < entry_params(hosts, m).len() ==> wf_param(
                            #[trigger] entry_params(hosts, m)[j],
                        ))) by {
                        assert(plan.skip(1)[i] == plan[i + 1]);
                    }
                }
                lemma_parse_markers(plan.skip(1), hosts, Some((h, keep_some(eps))));
                let r1 = reparsed_hosts(plan.skip(1), hosts);
                let r = reparsed_hosts(plan, hosts);
                assert forall|m: Seq<char>|
                    has_marker(plan, m) <==> (m == h || has_marker(plan.skip(1), m)) by {
                    lemma_has_marker_cons(plan, m);
                }
                assert(flush(Some((h, keep_some(eps))), r1) =~= r);
                assert(seq![plan[0]] + plan.skip(1) =~= plan);
                assert(parse_from(lines, cur) =~= Doc {
                    plan: plan,
                    hosts: flush(cur, r),
                });
            },
            LineKind::Empty => {
                assert(false);
            },
            LineKind::Comment(t) => {
                assert(false);
            },
        }
    }
}


/// All inert entries (blanks, comments) precede all markers.
pub open spec fn ordered_plan(plan: Seq<LineKind>) -> bool {
    forall|i: int, j: int|
        0 <= i < j < plan.len() && (#[trigger] plan[i]) is Host ==> (#[trigger] plan[j]) is Host
}

/// Every comment entry in the plan is well formed.
pub open spec fn wf_inert(plan: Seq<LineKind>) -> bool {
    forall|i: int|
        0 <= i < plan.len() ==> ((#[trigger] plan[i]) matches LineKind::Comment(t)
            ==> wf_comment(t))
}

/// A document whose rendering parses back faithfully: inert content
/// before host blocks, well-formed comments, names and parameters.
pub open spec fn wf_doc(d: Doc) -> bool {
    ordered_plan(d.plan) && wf_inert(d.plan) && wf_markers(d.plan, d.hosts)
}

/// Parsing the rendered lines of a well-formed plan rebuilds the plan.
pub proof fn lemma_parse_plan(plan: Seq<LineKind>, hosts: Map<Seq<char>, Seq<ParamView>>)
    requires
        ordered_plan(plan),
        wf_inert(plan),
        wf_markers(plan, hosts),
    ensures
        parse_from(plan_lines(plan, hosts), None) == (Doc {
            plan: plan,
            hosts: reparsed_hosts(plan, hosts),
        }),
    decreases plan.len(),
{
    if plan.len() == 0 {
        assert(plan_lines(plan, hosts) =~= Seq::<Seq<char>>::empty());
        assert(reparsed_hosts(plan, hosts) =~= Map::<Seq<char>, Seq<ParamView>>::empty());
        assert(parse_from(plan_lines(plan, hosts), None) =~= Doc {
            plan: plan,
            hosts: reparsed_hosts(plan, hosts),
        });
    } else {
        let lines = plan_lines(plan, hosts);
        let rest_lines = plan_lines(plan.skip(1), hosts);
        assert(ordered_plan(plan.skip(1))) by {
            assert forall|i: int, j: int|
                0 <= i < j < plan.skip(1).len() && (#[trigger] plan.skip(1)[i]) is Host implies (
            #[trigger] plan.skip(1)[j]) is Host by {
                assert(plan.skip(1)[i] == plan[i + 1]);
                assert(plan.skip(1)[j] == plan[j + 1]);
            }
        }
        assert(wf_inert(plan.skip(1))) by {
            assert forall|i: int|
                0 <= i < plan.skip(1).len() implies ((#[trigger] plan.skip(1)[i]) matches
                LineKind::Comment(t) ==> wf_comment(t)) by {
                assert(plan.skip(1)[i] == plan[i + 1]);
            }
        }
        assert(wf_markers(plan.skip(1), hosts)) by {
            assert forall|i: int|
                0 <= i < plan.skip(1).len() implies ((#[trigger] plan.skip(1)[i]) matches
                LineKind::Host(m) ==> wf_name(m) && (forall|j: int|
                0 <= j < entry_params(hosts, m).len() ==> wf_param(
                    #[trigger] entry_params(hosts, m)[j],
                ))) by {
                assert(plan.skip(1)[i] == plan[i + 1]);
            }
        }
        match plan[0] {
            LineKind::Host(h) => {
                assert(forall|i: int| 0 <= i < plan.len() ==> (#[trigger] plan[i]) is Host) by {
                    assert(forall|i: int|
                        0 < i < plan.len() ==> ((plan[0]) is Host ==> (#[trigger] plan[i]) is
                        Host));
                }
                lemma_parse_markers(plan, hosts, None);
            },
            LineKind::Comment(t) => {
                assert(block_lines(plan[0], hosts) == seq![t]);
                assert(lines[0] == t);
                assert(lines.skip(1) =~= rest_lines);
                assert(wf_comment(t));
                lemma_parse_plan(plan.skip(1), hosts);
                let r1 = reparsed_hosts(plan.skip(1), hosts);
                let r = reparsed_hosts(plan, hosts);
                assert forall|m: Seq<char>|
                    has_marker(plan, m) <==> has_marker(plan.skip(1), m) by {
                    lemma_has_marker_cons(plan, m);
                }
                assert(r1 =~= r);
                assert(seq![plan[0]] + plan.skip(1) =~= plan);
                assert(parse_from(lines, None) =~= Doc { plan: plan, hosts: r });
            },
            LineKind::Empty => {
                assert(block_lines(plan[0], hosts) == seq![Seq::<char>::empty()]);
                assert(lines[0] =~= Seq::<char>::empty());
                assert(lines.skip(1) =~= rest_lines);
                assert(!is_host_line(lines[0]));
                assert(ltrim(lines[0]) == lines[0]);
                assert(is_blank_line(lines[0]));
                assert(!is_comment_line(lines[0]));
                lemma_parse_plan(plan.skip(1), hosts);
                let r1 = reparsed_hosts(plan.skip(1), hosts);
                let r = reparsed_hosts(plan, hosts);
                assert forall|m: Seq<char>|
                    has_marker(plan, m) <==> has_marker(plan.skip(1), m) by {
                    lemma_has_marker_cons(plan, m);
                }
                assert(r1 =~= r);
                assert(seq![plan[0]] + plan.skip(1) =~= plan);
                assert(parse_from(lines, None) =~= Doc { plan: plan, hosts: r });
            },
        }
    }
}

/// Rendered parameter lines ignore value-less parameters.
proof fn lemma_param_lines_keep_some(ps: Seq<ParamView>)
    ensures
        param_lines(keep_some(ps)) == param_lines(ps),
    decreases ps.len(),
{
    if ps.len() == 0 {
    } else {
        lemma_param_lines_keep_some(ps.skip(1));
        match ps[0].1 {
            Some(v) => {
                let ks = keep_some(ps);
                assert(ks == seq![ps[0]] + keep_some(ps.skip(1)));
                assert(ks[0] == ps[0]);
                assert(ks.skip(1) =~= keep_some(ps.skip(1)));
                assert(param_lines(ks) == seq!["  "@ + ps[0].0 + " "@ + v] + param_lines(
                    keep_some(ps.skip(1)),
                ));
            },
            None => {
                assert(keep_some(ps) == keep_some(ps.skip(1)));
            },
        }
    }
}

/// Swapping the table for the reparsed table renders the same lines.
proof fn lemma_plan_lines_reparsed(
    sub: Seq<LineKind>,
    plan: Seq<LineKind>,
    hosts: Map<Seq<char>, Seq<ParamView>>,
)
    requires
        forall|n: Seq<char>| #[trigger] has_marker(sub, n) ==> has_marker(plan, n),
    ensures
        plan_lines(sub, reparsed_hosts(plan, hosts)) == plan_lines(sub, hosts),
    decreases sub.len(),
{
    let r = reparsed_hosts(plan, hosts);
    if sub.len() == 0 {
    } else {
        assert forall|n: Seq<char>| #[trigger] has_marker(sub.skip(1), n) implies has_marker(
            plan,
            n,
        ) by {
            lemma_has_marker_cons(sub, n);
        }
        lemma_plan_lines_reparsed(sub.skip(1), plan, hosts);
        match sub[0] {
            LineKind::Host(h) => {
                assert(has_marker(sub, h));
                assert(has_marker(plan, h));
                assert(r.dom().contains(h));
                assert(entry_params(r, h) == keep_some(entry_params(hosts, h)));
                lemma_param_lines_keep_some(entry_params(hosts, h));
                assert(block_lines(sub[0], r) == block_lines(sub[0], hosts));
            },
            _ => {
                assert(block_lines(sub[0], r) == block_lines(sub[0], hosts));
            },
        }
    }
}

/// Round trip: parsing the rendered lines of a well-formed document
/// yields a document with the very same plan, whose rendering — lines and
/// full text alike — equals the original rendering. Rendering is thus
/// idempotent across a parse.
pub proof fn lemma_render_parse_round_trip(d: Doc)
    requires
        wf_doc(d),
    ensures
        ({
            let d2 = parse_doc(doc_lines(d));
            &&& d2.plan == d.plan
            &&& doc_lines(d2) == doc_lines(d)
            &&& render_doc(d2) == render_doc(d)
        }),
{
    lemma_parse_plan(d.plan, d.hosts);
    let d2 = parse_doc(doc_lines(d));
    assert(d2.plan == d.plan);
    assert(d2.hosts == reparsed_hosts(d.plan, d.hosts));
    lemma_plan_lines_reparsed(d.plan, d.plan, d.hosts);
    assert(doc_lines(d2) == doc_lines(d));
}

} // verus!
