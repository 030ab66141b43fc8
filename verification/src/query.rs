//! Decoding a request's query string into a parameter map.

use vstd::prelude::*;

verus! {

/// The decoded key/value pairs of a query string, in order of occurrence,
/// as `url::form_urlencoded::parse` produces them. The result depends on
/// the input characters alone.
pub uninterp spec fn form_decoded_pairs(q: Seq<char>) -> Seq<(Seq<char>, Seq<char>)>;

/// Relies on `url::form_urlencoded::parse`: splits the query string into
/// `name=value` pairs and percent-plus-decodes each side.
#[verifier::external_body]
fn decode_form_pairs(query: &str) -> (r: Vec<(String, String)>)
    ensures
        r@.len() == form_decoded_pairs(query@).len(),
        forall|i: int| 0 <= i < r@.len() ==> (#[trigger] r@[i]).0@ == form_decoded_pairs(query@)[i].0
            && r@[i].1@ == form_decoded_pairs(query@)[i].1,
{
    url::form_urlencoded::parse(query.as_bytes())
        .map(|(k, v)| (String::from(k), String::from(v)))
        .collect()
}

/// The map a pair listing denotes: when a name occurs more than once,
/// the value of its last occurrence wins.
pub open spec fn pairs_map(s: Seq<(Seq<char>, Seq<char>)>) -> Map<Seq<char>, Seq<char>>
    decreases s.len(),
{
    if s.len() == 0 {
        Map::empty()
    } else {
        pairs_map(s.drop_last()).insert(s.last().0, s.last().1)
    }
}

proof fn lemma_pairs_map_lookup(s: Seq<(Seq<char>, Seq<char>)>, i: int)
    requires
        0 <= i < s.len(),
        forall|j: int| i < j < s.len() ==> s[j].0 != s[i].0,
    ensures
        pairs_map(s).contains_key(s[i].0),
        pairs_map(s)[s[i].0] == s[i].1,
    decreases s.len(),
{
    if i == s.len() - 1 {
    } else {
        assert(s.drop_last()[i] == s[i]);
        lemma_pairs_map_lookup(s.drop_last(), i);
        assert(s.last().0 != s[i].0);
    }
}

proof fn lemma_pairs_map_absent(s: Seq<(Seq<char>, Seq<char>)>, k: Seq<char>)
    requires
        forall|j: int| 0 <= j < s.len() ==> s[j].0 != k,
    ensures
        !pairs_map(s).contains_key(k),
    decreases s.len(),
{
    if s.len() > 0 {
        lemma_pairs_map_absent(s.drop_last(), k);
    }
}

/// A request's decoded parameters. Its model is the map from parameter
/// name to value, the last occurrence of a repeated name winning.
pub struct QueryParams {
    pairs: Vec<(String, String)>,
}

impl View for QueryParams {
    type V = Map<Seq<char>, Seq<char>>;

    closed spec fn view(&self) -> Map<Seq<char>, Seq<char>> {
        pairs_map(self.pairs@.map_values(|p: (String, String)| (p.0@, p.1@)))
    }
}

impl QueryParams {
    /// No parameters at all, as for a request without a query string.
    pub fn new() -> (q: QueryParams)
        ensures
            q@ == Map::<Seq<char>, Seq<char>>::empty(),
    {
        let q = QueryParams { pairs: Vec::new() };
        proof {
            assert(q.pairs@.map_values(|p: (String, String)| (p.0@, p.1@)) =~= Seq::<
                (Seq<char>, Seq<char>),
            >::empty());
        }
        q
    }

    /// The value of parameter `name`, or nothing when the request did
    /// not carry it.
    pub fn get(&self, name: &String) -> (r: Option<&String>)
        ensures
            match r {
                Some(v) => self@.contains_key(name@) && v@ == self@[name@],
                None => !self@.contains_key(name@),
            },
    {
        let ghost ms = self.pairs@.map_values(|p: (String, String)| (p.0@, p.1@));
        let mut i: usize = self.pairs.len();
        while i > 0
            invariant
                i <= self.pairs@.len(),
                ms == self.pairs@.map_values(|p: (String, String)| (p.0@, p.1@)),
                forall|j: int| i <= j < self.pairs@.len() ==> (#[trigger] ms[j]).0 != name@,
            decreases i,
        {
            i = i - 1;
            if self.pairs[i].0 == *name {
                proof {
                    assert(ms[i as int].0 == name@);
                    lemma_pairs_map_lookup(ms, i as int);
                }
                return Some(&self.pairs[i].1);
            }
        }
        proof {
            lemma_pairs_map_absent(ms, name@);
        }
        None
    }
}

/// Decodes a query string into the request's parameters. Splitting and
/// percent-decoding are the URL form encoding's rules; the resulting map
/// keeps, for a name given twice, the value given last.
pub fn parse_query_params(query: &str) -> (r: QueryParams)
    ensures
        r@ == pairs_map(form_decoded_pairs(query@)),
{
    let pairs = decode_form_pairs(query);
    let r = QueryParams { pairs };
    proof {
        assert(r.pairs@.map_values(|p: (String, String)| (p.0@, p.1@)) =~= form_decoded_pairs(
            query@,
        ));
    }
    r
}

} // verus!
