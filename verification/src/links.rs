//! Navigation links between the records of a log.

use crate::query::{
    assign, assigned, collapse, collapsed, lemma_assigned_again, querify, querified,
    query_text, to_query,
};
use crate::text::{decimal, to_decimal};
use crate::uri::{render, uri_text, Resource, Target};
use vstd::prelude::*;

verus! {

/// One of the four relations a link can have to the record just served.
#[derive(Debug, Clone, Copy, PartialEq, Eq, Structural)]
pub enum Kind {
    Prev,
    Next,
    Last,
    First,
}

impl Kind {
    /// The sequence number a link of this kind points at, from the record
    /// `idx` in a log whose sequence numbers end before `max`; `None` where
    /// there is no such link. `Prev` is absent at the first record, `Next`
    /// where no record follows. `Last` points at `max` itself: the place of
    /// the record to come, not of the last one written.
    pub open spec fn target(self, idx: u64, max: u64) -> Option<u64> {
        match self {
            Kind::Prev => if idx == 0 {
                None
            } else {
                Some((idx - 1) as u64)
            },
            Kind::Next => if idx + 1 < max {
                Some((idx + 1) as u64)
            } else {
                None
            },
            Kind::Last => Some(max),
            Kind::First => Some(0),
        }
    }

    /// The relation's name as it stands in a header.
    pub open spec fn rel(self) -> Seq<char> {
        match self {
            Kind::Prev => "prev"@,
            Kind::Next => "next"@,
            Kind::Last => "last"@,
            Kind::First => "first"@,
        }
    }

    /// Computes the sequence number this kind of link points at.
    pub fn apply(&self, idx: u64, max: u64) -> (r: Option<u64>)
        ensures
            r == self.target(idx, max),
    {
        match self {
            Kind::Prev => if idx == 0 {
                None
            } else {
                Some(idx - 1)
            },
            Kind::Next => if idx < u64::MAX && idx + 1 < max {
                Some(idx + 1)
            } else {
                None
            },
            Kind::Last => Some(max),
            Kind::First => Some(0),
        }
    }

    /// The relation's name: `prev`, `next`, `last` or `first`.
    pub fn name(&self) -> (r: &'static str)
        ensures
            r@ == self.rel(),
    {
        match self {
            Kind::Prev => "prev",
            Kind::Next => "next",
            Kind::Last => "last",
            Kind::First => "first",
        }
    }
}

impl DeepView for Kind {
    type V = Kind;

    open spec fn deep_view(&self) -> Kind {
        *self
    }
}

/// The order in which the relations stand in a header.
pub open spec fn order() -> Seq<Kind> {
    seq![Kind::Next, Kind::Prev, Kind::Last, Kind::First]
}

/// The query of a link to `idx`: that of the pairs with `index` bound to
/// the number in decimal.
pub open spec fn link_query(pairs: Seq<(Seq<char>, Seq<char>)>, idx: u64) -> Seq<char> {
    query_text(assigned(pairs, "index"@, decimal(idx as nat)))
}

/// The text of the link to `idx`: the address with its query rewritten, as
/// the `http` crate renders it.
pub open spec fn link_text(
    target: Target,
    path: Seq<char>,
    pairs: Seq<(Seq<char>, Seq<char>)>,
    idx: u64,
) -> Option<Seq<char>> {
    uri_text(
        target.scheme.deep_view(),
        target.authority.deep_view(),
        path + "?"@ + link_query(pairs, idx),
    )
}

/// One segment of a header: the link in angle brackets and the name of its
/// relation.
pub open spec fn segment(link: (Kind, Seq<char>)) -> Seq<char> {
    "<"@ + link.1 + ">; rel=\""@ + link.0.rel() + "\""@
}

/// The header made of the given links: their segments in order, with a
/// comma and a space between them; `None` where there is no link.
pub open spec fn composed(links: Seq<(Kind, Seq<char>)>) -> Option<Seq<char>>
    decreases links.len(),
{
    if links.len() == 0 {
        None
    } else {
        match composed(links.drop_last()) {
            Some(head) => Some(head + ", "@ + segment(links.last())),
            None => Some(segment(links.last())),
        }
    }
}

/// The query text of a resource, empty where it has none.
pub open spec fn query_of(resource: Resource) -> Seq<char> {
    match resource.query {
        Some(q) => q@,
        None => Seq::empty(),
    }
}

/// Writes the path and query of the link to `idx`, binding `index` in
/// the query on the way.
pub fn rewrite(path: &str, query: &mut Vec<(String, String)>, idx: u64) -> (text: String)
    ensures
        final(query).deep_view() == assigned(old(query).deep_view(), "index"@, decimal(idx as nat)),
        text@ == path@ + "?"@ + link_query(old(query).deep_view(), idx),
{
    assign(query, "index", to_decimal(idx));
    let written = to_query(query);
    let mut text = String::from_str(path);
    text.append("?");
    text.append(written.as_str());
    text
}

/// Renders the link to `idx`, binding `index` in the query on the way.
pub fn link_to(target: &Target, path: &str, query: &mut Vec<(String, String)>, idx: u64) -> (r:
    Option<String>)
    ensures
        final(query).deep_view() == assigned(old(query).deep_view(), "index"@, decimal(idx as nat)),
        r.deep_view() == link_text(*target, path@, old(query).deep_view(), idx),
{
    let path_and_query = rewrite(path, query, idx);
    render(&target.scheme, &target.authority, path_and_query.as_str())
}

/// Writes the header that holds the given links.
pub fn compose(links: &Vec<(Kind, String)>) -> (r: Option<String>)
    ensures
        r.deep_view() == composed(links.deep_view()),
{
    let mut out = String::new();
    let mut first = true;
    let ghost all = links.deep_view();
    assert(all.take(0) =~= Seq::empty());
    let mut i: usize = 0;
    while i < links.len()
        invariant
            i <= links.len(),
            all == links.deep_view(),
            composed(all.take(i as int)) == if first {
                None
            } else {
                Some(out@)
            },
            first ==> out@ == Seq::<char>::empty(),
        decreases links.len() - i,
    {
        let ghost head = out@;
        assert(all[i as int] == links@[i as int].deep_view());
        assert(all.take(i as int + 1).drop_last() =~= all.take(i as int));
        assert(all.take(i as int + 1).last() == all[i as int]);
        if !first {
            out.append(", ");
        } else {
            first = false;
        }
        out.append("<");
        out.append(links[i].1.as_str());
        out.append(">; rel=\"");
        out.append(links[i].0.name());
        out.append("\"");
        assert(out@ =~= segment(all[i as int]) || out@ =~= head + ", "@ + segment(all[i as int]));
        i += 1;
    }
    assert(all.take(i as int) =~= all);
    if first {
        None
    } else {
        Some(out)
    }
}

/// The position from which links are made: the record just served and the
/// number of records in the log.
#[derive(Debug, Clone, Copy, PartialEq, Eq, Structural)]
pub struct Link {
    pub current: u64,
    pub last: u64,
}

impl Link {
    /// Links from the record `idx` of a log that holds `last` records.
    pub fn new(idx: u64, last: u64) -> (link: Link)
        ensures
            link.current == idx,
            link.last == last,
    {
        Link { current: idx, last }
    }

    /// The links that the relations in `kinds` give, in order: one for each
    /// relation that applies and whose link can be rendered.
    pub open spec fn links(
        self,
        kinds: Seq<Kind>,
        target: Target,
        path: Seq<char>,
        pairs: Seq<(Seq<char>, Seq<char>)>,
    ) -> Seq<(Kind, Seq<char>)>
        decreases kinds.len(),
    {
        if kinds.len() == 0 {
            Seq::empty()
        } else {
            let front = self.links(kinds.drop_last(), target, path, pairs);
            match kinds.last().target(self.current, self.last) {
                Some(idx) => match link_text(target, path, pairs, idx) {
                    Some(uri) => front.push((kinds.last(), uri)),
                    None => front,
                },
                None => front,
            }
        }
    }

    /// The value of the header that leads from the record served at
    /// `target` to its neighbours: next, previous, last and first, as far
    /// as each applies; `None` where the address names no path. The query
    /// of `target` is read as a mapping, in which `index` is rebound for
    /// each link.
    pub open spec fn header_text(self, target: Target) -> Option<Seq<char>> {
        match target.resource {
            Some(resource) => composed(
                self.links(
                    order(),
                    target,
                    resource.path@,
                    collapsed(querified(query_of(resource))),
                ),
            ),
            None => None,
        }
    }

    /// Writes the value of the `Link` header for a record served at `rel`.
    pub fn header(&self, rel: &Target) -> (r: Option<String>)
        ensures
            r.deep_view() == self.header_text(*rel),
    {
        let resource = match &rel.resource {
            Some(resource) => resource,
            None => {
                return None;
            },
        };
        let path = resource.path.as_str();
        let pairs = match &resource.query {
            Some(query) => querify(query.as_str()),
            None => querify(""),
        };
        proof {
            reveal_strlit("");
            assert(""@ =~= Seq::<char>::empty());
        }
        let mut query = collapse(&pairs);
        let ghost unique = query.deep_view();

        let mut links: Vec<(Kind, String)> = Vec::new();
        let kinds = [Kind::Next, Kind::Prev, Kind::Last, Kind::First];
        assert(kinds@ =~= order());
        assert(kinds@.take(0) =~= Seq::empty());
        assert(links.deep_view() =~= Seq::empty());
        let mut i: usize = 0;
        while i < 4
            invariant
                i <= 4,
                kinds@ == order(),
                path@ == resource.path@,
                query.deep_view() == unique || exists|n: u64|
                    query.deep_view() == assigned(unique, "index"@, decimal(n as nat)),
                links.deep_view() == self.links(kinds@.take(i as int), *rel, path@, unique),
            decreases 4 - i,
        {
            let kind = kinds[i];
            assert(kinds@.take(i as int + 1).drop_last() =~= kinds@.take(i as int));
            assert(kinds@.take(i as int + 1).last() == kind);
            let ghost front = links.deep_view();
            match kind.apply(self.current, self.last) {
                Some(idx) => {
                    proof {
                        if query.deep_view() != unique {
                            let n = choose|n: u64|
                                query.deep_view() == assigned(unique, "index"@, decimal(n as nat));
                            lemma_assigned_again(
                                unique,
                                "index"@,
                                decimal(n as nat),
                                decimal(idx as nat),
                            );
                        }
                    }
                    let link = link_to(rel, path, &mut query, idx);
                    assert(query.deep_view() == assigned(unique, "index"@, decimal(idx as nat)));
                    assert(link.deep_view() == link_text(*rel, path@, unique, idx));
                    match link {
                        Some(uri) => {
                            links.push((kind, uri));
                            assert(links.deep_view() =~= front.push((kind, uri@)));
                        },
                        None => {},
                    }
                },
                None => {},
            }
            i += 1;
        }
        assert(kinds@.take(4) =~= kinds@);
        compose(&links)
    }
}

} // verus!
