//! The master lookup: a two-way mapping between a master's layer id and its
//! design-space parameters (weight, width).
//!
//! Font-level master tables refer to layers by id; batch passes need both
//! directions — the id a (weight, width) pair names, and the parameters an
//! id carries. Writing a pair that is already present overwrites it: the
//! last write wins.

use vstd::prelude::*;

verus! {

broadcast use {vstd::std_specs::vec::group_vec_axioms, vstd::seq::group_seq_axioms};

pub struct LayerMap {
    params_to_id: Vec<((i64, i64), String)>,
    id_to_params: Vec<(String, (i64, i64))>,
}

/// The mapping from parameters to id that an entry list stands for; a later
/// entry overwrites an earlier one.
pub open spec fn map_pid(es: Seq<((i64, i64), String)>) -> Map<(int, int), Seq<char>>
    decreases es.len(),
{
    if es.len() == 0 {
        Map::empty()
    } else {
        map_pid(es.drop_last()).insert(
            (es.last().0.0 as int, es.last().0.1 as int),
            es.last().1@,
        )
    }
}

/// The mapping from id to parameters that an entry list stands for.
pub open spec fn map_idp(es: Seq<(String, (i64, i64))>) -> Map<Seq<char>, (int, int)>
    decreases es.len(),
{
    if es.len() == 0 {
        Map::empty()
    } else {
        map_idp(es.drop_last()).insert(
            es.last().0@,
            (es.last().1.0 as int, es.last().1.1 as int),
        )
    }
}

pub ghost struct LayerMapV {
    pub by_params: Map<(int, int), Seq<char>>,
    pub by_id: Map<Seq<char>, (int, int)>,
}

impl View for LayerMap {
    type V = LayerMapV;

    closed spec fn view(&self) -> LayerMapV {
        LayerMapV {
            by_params: map_pid(self.params_to_id@),
            by_id: map_idp(self.id_to_params@),
        }
    }
}

impl Default for LayerMap {
    /// An empty mapping.
    fn default() -> (r: LayerMap)
        ensures
            r@.by_params == Map::<(int, int), Seq<char>>::empty(),
            r@.by_id == Map::<Seq<char>, (int, int)>::empty(),
    {
        LayerMap { params_to_id: Vec::new(), id_to_params: Vec::new() }
    }
}

impl LayerMap {
    /// Record that the layer `id` sits at design-space parameters
    /// `(wght, wdth)`, in both directions; a later write for the same pair
    /// or the same id wins.
    pub fn add(&mut self, wght: i64, wdth: i64, id: &str)
        ensures
            final(self)@.by_params == old(self)@.by_params.insert(
                (wght as int, wdth as int),
                id@,
            ),
            final(self)@.by_id == old(self)@.by_id.insert(id@, (wght as int, wdth as int)),
    {
        self.params_to_id.push(((wght, wdth), id.to_owned()));
        self.id_to_params.push((id.to_owned(), (wght, wdth)));
        proof {
            assert(self.params_to_id@.drop_last() =~= old(self).params_to_id@);
            assert(self.id_to_params@.drop_last() =~= old(self).id_to_params@);
        }
    }

    /// The id recorded for `(wght, wdth)`. The pair must be present: a
    /// lookup of an unknown pair is a caller error.
    #[verifier::loop_isolation(false)]
    pub fn get_id(&self, wght: i64, wdth: i64) -> (r: &str)
        requires
            self@.by_params.contains_key((wght as int, wdth as int)),
        ensures
            r@ == self@.by_params[(wght as int, wdth as int)],
    {
        let ghost key = (wght as int, wdth as int);
        let ghost full = self.params_to_id@;
        let n = self.params_to_id.len();
        proof {
            assert(full.take(n as int) =~= full);
        }
        let mut j: usize = n;
        while j > 0
            invariant
                j <= n,
                map_pid(full).contains_key(key) <==> map_pid(full.take(j as int)).contains_key(
                    key,
                ),
                map_pid(full).contains_key(key) ==> map_pid(full.take(j as int))[key] == map_pid(
                    full,
                )[key],
            decreases j,
        {
            let idx = j - 1;
            let e = &self.params_to_id[idx];
            proof {
                assert(full.take(j as int).drop_last() =~= full.take(idx as int));
                assert(full.take(j as int).last() == full[idx as int]);
            }
            if e.0.0 == wght && e.0.1 == wdth {
                return e.1.as_str();
            }
            j = idx;
        }
        proof {
            assert(full.take(0) =~= Seq::<((i64, i64), String)>::empty());
            assert(!map_pid(full.take(0)).contains_key(key));
            assert(false);
        }
        ""
    }

    /// The parameters recorded for `id`, or nothing if the id is unknown.
    #[verifier::loop_isolation(false)]
    pub fn get_params(&self, id: &str) -> (r: Option<(i64, i64)>)
        ensures
            match r {
                Some(p) => self@.by_id.contains_key(id@) && self@.by_id[id@] == (
                    p.0 as int,
                    p.1 as int,
                ),
                None => !self@.by_id.contains_key(id@),
            },
    {
        let ghost key = id@;
        let ghost full = self.id_to_params@;
        let wanted = id.to_owned();
        let n = self.id_to_params.len();
        proof {
            assert(full.take(n as int) =~= full);
        }
        let mut j: usize = n;
        while j > 0
            invariant
                j <= n,
                map_idp(full).contains_key(key) <==> map_idp(full.take(j as int)).contains_key(
                    key,
                ),
                map_idp(full).contains_key(key) ==> map_idp(full.take(j as int))[key] == map_idp(
                    full,
                )[key],
            decreases j,
        {
            let idx = j - 1;
            let e = &self.id_to_params[idx];
            proof {
                assert(full.take(j as int).drop_last() =~= full.take(idx as int));
                assert(full.take(j as int).last() == full[idx as int]);
            }
            if e.0 == wanted {
                return Some((e.1.0, e.1.1));
            }
            j = idx;
        }
        proof {
            assert(full.take(0) =~= Seq::<(String, (i64, i64))>::empty());
            assert(!map_idp(full.take(0)).contains_key(key));
        }
        None
    }
}

} // verus!
