//! The engine's stores: plain values, lists, and the expiries attached to
//! keys, with the eviction scan.

use crate::parser::{all_digits, decimal_value, digits_value, i64_bound, read_decimal, read_positive_decimal};
use crate::table::{bytes_eq, share, Table};
use std::collections::VecDeque;
use std::sync::Arc;
use vstd::prelude::*;

verus! {

/// The state of the engine's stores.
pub struct DataModel {
    /// Plain values by key.
    pub strings: Map<Seq<u8>, Seq<u8>>,
    /// Lists by key, head first.
    pub lists: Map<Seq<u8>, Seq<Seq<u8>>>,
    /// The expiries attached to keys and not yet dropped by a scan, each an
    /// instant and a key.
    pub eviction: Seq<(u64, Seq<u8>)>,
    /// The largest instant already scanned.
    pub last_scanned: u64,
}

/// The list under `k`, or the empty list.
pub open spec fn list_or_empty(lists: Map<Seq<u8>, Seq<Seq<u8>>>, k: Seq<u8>) -> Seq<Seq<u8>> {
    if lists.contains_key(k) {
        lists[k]
    } else {
        seq![]
    }
}

/// The keys that an expiry in `[lo, hi)` is attached to.
pub open spec fn expired_keys(ev: Seq<(u64, Seq<u8>)>, lo: u64, hi: u64) -> Set<Seq<u8>> {
    Set::new(|k: Seq<u8>| exists|i: int| 0 <= i < ev.len() && lo <= #[trigger] ev[i].0 < hi && ev[i].1 == k)
}

/// Whether an expiry lies outside `[lo, hi)`.
pub open spec fn outside_window(lo: u64, hi: u64) -> spec_fn((u64, Seq<u8>)) -> bool {
    |p: (u64, Seq<u8>)| !(lo <= p.0 < hi)
}

/// The eviction scan at instant `t`.
pub open spec fn evict(s: DataModel, t: u64) -> DataModel {
    if t <= s.last_scanned {
        s
    } else {
        DataModel {
            strings: s.strings.remove_keys(expired_keys(s.eviction, s.last_scanned, t)),
            lists: s.lists,
            eviction: s.eviction.filter(outside_window(s.last_scanned, t)),
            last_scanned: t,
        }
    }
}

/// Attaches the expiry `evict_at`, if any, to `k`; an expiry is attached
/// to a key at most once.
pub open spec fn attach(s: DataModel, k: Seq<u8>, evict_at: Option<u64>) -> DataModel {
    match evict_at {
        Some(t) => if s.eviction.contains((t, k)) {
            s
        } else {
            DataModel { eviction: s.eviction.push((t, k)), ..s }
        },
        None => s,
    }
}

pub open spec fn set_spec(s: DataModel, k: Seq<u8>, v: Seq<u8>) -> DataModel {
    DataModel { strings: s.strings.insert(k, v), ..s }
}

pub open spec fn l_push_spec(s: DataModel, k: Seq<u8>, v: Seq<u8>) -> DataModel {
    DataModel { lists: s.lists.insert(k, seq![v] + list_or_empty(s.lists, k)), ..s }
}

pub open spec fn r_push_spec(s: DataModel, k: Seq<u8>, v: Seq<u8>) -> DataModel {
    DataModel { lists: s.lists.insert(k, list_or_empty(s.lists, k).push(v)), ..s }
}

/// Takes the head of the list under `k`, if there is one.
pub open spec fn l_pop_spec(s: DataModel, k: Seq<u8>) -> (DataModel, Option<Seq<u8>>) {
    if s.lists.contains_key(k) && s.lists[k].len() > 0 {
        (DataModel { lists: s.lists.insert(k, s.lists[k].drop_first()), ..s }, Some(s.lists[k][0]))
    } else {
        (s, None)
    }
}

/// Takes the last item of the list under `k`, if there is one.
pub open spec fn r_pop_spec(s: DataModel, k: Seq<u8>) -> (DataModel, Option<Seq<u8>>) {
    if s.lists.contains_key(k) && s.lists[k].len() > 0 {
        (DataModel { lists: s.lists.insert(k, s.lists[k].drop_last()), ..s }, Some(s.lists[k].last()))
    } else {
        (s, None)
    }
}

/// A signed decimal as `str::parse::<i64>` reads it: an optional `+` or
/// `-`, then one or more digits, within `i64`.
pub open spec fn parse_i64(v: Seq<u8>) -> Option<int> {
    if v.len() > 0 && v[0] == 43u8 {
        let d = v.skip(1);
        if all_digits(d) && digits_value(d) < i64_bound() {
            Some(digits_value(d) as int)
        } else {
            None
        }
    } else {
        decimal_value(v)
    }
}

/// An optional sign, then one or more digits, of any size.
pub open spec fn signed_digits(v: Seq<u8>) -> bool {
    v.len() > 0 && all_digits(if v[0] == 43u8 || v[0] == 45u8 { v.skip(1) } else { v })
}

/// Why `v` cannot be incremented.
pub open spec fn incr_error_detail(v: Seq<u8>) -> Seq<char> {
    if v.len() == 0 {
        "cannot parse integer from empty string"@
    } else if parse_i64(v) is Some {
        "number too large to fit in target type"@
    } else if signed_digits(v) {
        if v[0] == 45u8 {
            "number too small to fit in target type"@
        } else {
            "number too large to fit in target type"@
        }
    } else {
        "invalid digit found in string"@
    }
}

/// The result of incrementing the value under `k`: `None` when there is
/// none, the successor when the value is a decimal whose successor fits,
/// and otherwise the reason why not.
pub open spec fn incr_spec(strings: Map<Seq<u8>, Seq<u8>>, k: Seq<u8>) -> Result<Option<int>, Seq<char>> {
    if !strings.contains_key(k) {
        Ok(None)
    } else {
        let v = strings[k];
        match parse_i64(v) {
            Some(i) => if i + 1 < i64_bound() {
                Ok(Some(i + 1))
            } else {
                Err(incr_error_detail(v))
            },
            None => Err(incr_error_detail(v)),
        }
    }
}

fn parse_i64_bytes(v: &[u8]) -> (r: Option<i64>)
    ensures
        match r {
            Some(i) => parse_i64(v@) == Some(i as int),
            None => parse_i64(v@) is None,
        },
{
    assert(v@.subrange(0, v@.len() as int) == v@);
    if v.len() > 0 && v[0] == 43u8 {
        assert(v@.skip(1) == v@.subrange(1, v@.len() as int));
        match read_positive_decimal(v, 1, v.len(), 0x7fff_ffff_ffff_ffffu64) {
            Some(d) => Some(d as i64),
            None => None,
        }
    } else {
        read_decimal(v, 0, v.len())
    }
}

fn all_digits_from(v: &[u8], start: usize) -> (r: bool)
    requires
        start <= v@.len(),
    ensures
        r == all_digits(v@.subrange(start as int, v@.len() as int)),
{
    if start >= v.len() {
        return false;
    }
    let mut i: usize = start;
    while i < v.len()
        invariant
            start <= i <= v@.len(),
            forall|j: int| start <= j < i ==> crate::parser::is_digit(#[trigger] v@[j]),
        decreases v@.len() - i,
    {
        if v[i] < 48u8 || v[i] > 57u8 {
            assert(!crate::parser::is_digit(v@.subrange(start as int, v@.len() as int)[i - start]));
            return false;
        }
        i = i + 1;
    }
    assert forall|j: int| 0 <= j < v@.len() - start implies crate::parser::is_digit(
        #[trigger] v@.subrange(start as int, v@.len() as int)[j],
    ) by {
        assert(v@.subrange(start as int, v@.len() as int)[j] == v@[start + j]);
    }
    true
}

fn incr_error(v: &[u8], parsed: bool) -> (r: String)
    requires
        parsed == (parse_i64(v@) is Some),
    ensures
        r@ == incr_error_detail(v@),
{
    if v.len() == 0 {
        "cannot parse integer from empty string".to_owned()
    } else if parsed {
        "number too large to fit in target type".to_owned()
    } else {
        let signed = v[0] == 43u8 || v[0] == 45u8;
        let start: usize = if signed { 1 } else { 0 };
        assert(v@.skip(1) == v@.subrange(1, v@.len() as int));
        assert(v@ == v@.subrange(0, v@.len() as int));
        if all_digits_from(v, start) {
            if v[0] == 45u8 {
                "number too small to fit in target type".to_owned()
            } else {
                "number too large to fit in target type".to_owned()
            }
        } else {
            "invalid digit found in string".to_owned()
        }
    }
}

/// A list of byte strings, head first.
pub struct ByteList {
    items: VecDeque<Arc<Vec<u8>>>,
}

impl View for ByteList {
    type V = Seq<Seq<u8>>;

    closed spec fn view(&self) -> Seq<Seq<u8>> {
        self.items@.map_values(|a: Arc<Vec<u8>>| a@)
    }
}

/// An expiry attached to a key.
struct Attachment {
    at: u64,
    key: Arc<Vec<u8>>,
}

spec fn attachments(v: Seq<Attachment>) -> Seq<(u64, Seq<u8>)> {
    v.map_values(|a: Attachment| (a.at, a.key@))
}

const DEFAULT_LIST_CAPACITY: usize = 8;

/// The engine's stores: plain values, lists, and the expiries attached to
/// keys.
pub struct RedisData {
    single_map: Table<Arc<Vec<u8>>>,
    list_map: Table<ByteList>,
    eviction: Vec<Attachment>,
    last_evicted_t: u64,
}

impl RedisData {
    pub closed spec fn view(&self) -> DataModel {
        DataModel {
            strings: self.single_map@,
            lists: self.list_map@,
            eviction: attachments(self.eviction@),
            last_scanned: self.last_evicted_t,
        }
    }

    pub closed spec fn wf(&self) -> bool {
        self.single_map.wf() && self.list_map.wf()
    }

    pub fn new() -> (r: RedisData)
        ensures
            r.wf(),
            r@.strings == Map::<Seq<u8>, Seq<u8>>::empty(),
            r@.lists == Map::<Seq<u8>, Seq<Seq<u8>>>::empty(),
            r@.eviction == Seq::<(u64, Seq<u8>)>::empty(),
            r@.last_scanned == 0,
    {
        let r = RedisData {
            single_map: Table::new(),
            list_map: Table::new(),
            eviction: Vec::new(),
            last_evicted_t: 0,
        };
        assert(attachments(r.eviction@) =~= Seq::<(u64, Seq<u8>)>::empty());
        r
    }

    /// Removes every key whose expiry lies in `[last scanned, t)`, drops
    /// those expiries, and moves the watermark to `t`.
    pub fn evict_if_needed(&mut self, t: u64)
        requires
            old(self).wf(),
        ensures
            final(self).wf(),
            final(self)@ == evict(old(self)@, t),
    {
        if t <= self.last_evicted_t {
            return;
        }
        let lo = self.last_evicted_t;
        let ghost ev0 = attachments(self.eviction@);
        let ghost strings0 = self.single_map@;
        let mut pending: Vec<Attachment> = Vec::new();
        std::mem::swap(&mut pending, &mut self.eviction);
        let ghost all = pending@;
        assert(attachments(all) == ev0);
        let mut i: usize = 0;
        while i < pending.len()
            invariant
                self.wf(),
                i <= pending@.len(),
                pending@ == all,
                attachments(all) == ev0,
                lo < t,
                self.list_map@ == old(self).list_map@,
                self.last_evicted_t == lo,
                attachments(self.eviction@) == ev0.subrange(0, i as int).filter(outside_window(lo, t)),
                self.single_map@ == strings0.remove_keys(expired_keys(ev0.subrange(0, i as int), lo, t)),
            decreases pending@.len() - i,
        {
            let ghost pre = ev0.subrange(0, i as int);
            let a = &pending[i];
            assert(ev0[i as int] == (a.at, a.key@));
            assert(ev0.subrange(0, i + 1) == pre.push(ev0[i as int]));
            proof {
                pre.lemma_filter_push(ev0[i as int], outside_window(lo, t));
            }
            if lo <= a.at && a.at < t {
                let _ = self.single_map.remove(a.key.as_slice());
                proof {
                    assert(expired_keys(ev0.subrange(0, i + 1), lo, t) =~= expired_keys(pre, lo, t).insert(a.key@)) by {
                        let post = ev0.subrange(0, i + 1);
                        assert forall|k: Seq<u8>| expired_keys(post, lo, t).contains(k) implies #[trigger] expired_keys(pre, lo, t).insert(a.key@).contains(k) by {
                            let j = choose|j: int| 0 <= j < post.len() && lo <= #[trigger] post[j].0 < t && post[j].1 == k;
                            if j < i {
                                assert(pre[j] == post[j]);
                            }
                        }
                        assert forall|k: Seq<u8>| #[trigger] expired_keys(pre, lo, t).contains(k) implies expired_keys(post, lo, t).contains(k) by {
                            let j = choose|j: int| 0 <= j < pre.len() && lo <= #[trigger] pre[j].0 < t && pre[j].1 == k;
                            assert(pre[j] == post[j]);
                        }
                        assert(post[i as int].1 == a.key@);
                    }
                    assert(self.single_map@ =~= strings0.remove_keys(expired_keys(ev0.subrange(0, i + 1), lo, t)));
                }
            } else {
                let kept = Attachment { at: a.at, key: share(&a.key) };
                self.eviction.push(kept);
                proof {
                    let post = ev0.subrange(0, i + 1);
                    assert(expired_keys(post, lo, t) =~= expired_keys(pre, lo, t)) by {
                        assert forall|k: Seq<u8>| expired_keys(post, lo, t).contains(k) implies #[trigger] expired_keys(pre, lo, t).contains(k) by {
                            let j = choose|j: int| 0 <= j < post.len() && lo <= #[trigger] post[j].0 < t && post[j].1 == k;
                            assert(pre[j] == post[j]);
                        }
                        assert forall|k: Seq<u8>| #[trigger] expired_keys(pre, lo, t).contains(k) implies expired_keys(post, lo, t).contains(k) by {
                            let j = choose|j: int| 0 <= j < pre.len() && lo <= #[trigger] pre[j].0 < t && pre[j].1 == k;
                            assert(pre[j] == post[j]);
                        }
                    }
                    assert(attachments(self.eviction@) =~= post.filter(outside_window(lo, t)));
                }
            }
            i = i + 1;
        }
        self.last_evicted_t = t;
        assert(ev0.subrange(0, i as int) == ev0);
    }

    /// Attaches the expiry instant `t` to `k`.
    pub fn insert_eviction(&mut self, k: Arc<Vec<u8>>, t: u64)
        requires
            old(self).wf(),
        ensures
            final(self).wf(),
            final(self)@ == attach(old(self)@, k@, Some(t)),
    {
        let ghost ev = attachments(self.eviction@);
        let mut i: usize = 0;
        while i < self.eviction.len()
            invariant
                *self == *old(self),
                self.wf(),
                ev == attachments(self.eviction@),
                i <= self.eviction@.len(),
                forall|j: int| 0 <= j < i ==> ev[j] != (t, k@),
            decreases self.eviction@.len() - i,
        {
            if self.eviction[i].at == t && bytes_eq(self.eviction[i].key.as_slice(), k.as_slice()) {
                assert(ev[i as int] == (t, k@));
                return;
            }
            i = i + 1;
        }
        self.eviction.push(Attachment { at: t, key: k });
        assert(attachments(self.eviction@) =~= ev.push((t, k@)));
    }

    fn attach_if(&mut self, k: &Arc<Vec<u8>>, evict_at: Option<u64>)
        requires
            old(self).wf(),
        ensures
            final(self).wf(),
            final(self)@ == attach(old(self)@, k@, evict_at),
    {
        if let Some(t) = evict_at {
            self.insert_eviction(share(k), t);
        }
    }

    /// Stores `v` under `k`, and attaches the expiry `evict_at` if given.
    pub fn set(&mut self, k: Arc<Vec<u8>>, v: Arc<Vec<u8>>, evict_at: Option<u64>)
        requires
            old(self).wf(),
        ensures
            final(self).wf(),
            final(self)@ == set_spec(attach(old(self)@, k@, evict_at), k@, v@),
    {
        self.attach_if(&k, evict_at);
        self.single_map.insert(k, v);
    }

    /// Scans for expired keys at `t`, then looks `k` up.
    pub fn get(&mut self, k: &[u8], t: u64) -> (r: Option<Arc<Vec<u8>>>)
        requires
            old(self).wf(),
        ensures
            final(self).wf(),
            final(self)@ == evict(old(self)@, t),
            match r {
                Some(v) => final(self)@.strings.contains_key(k@) && v@ == final(self)@.strings[k@],
                None => !final(self)@.strings.contains_key(k@),
            },
    {
        self.evict_if_needed(t);
        match self.single_map.get(k) {
            Some(v) => Some(share(v)),
            None => None,
        }
    }

    /// Scans for expired keys at `t`, then reads the value under `k` as a
    /// decimal and returns its successor; the value itself stays as it is.
    pub fn incr(&mut self, k: &[u8], t: u64) -> (r: Result<Option<i64>, String>)
        requires
            old(self).wf(),
        ensures
            final(self).wf(),
            final(self)@ == evict(old(self)@, t),
            match (r, incr_spec(final(self)@.strings, k@)) {
                (Ok(Some(i)), Ok(Some(j))) => i as int == j,
                (Ok(None), Ok(None)) => true,
                (Err(e), Err(d)) => e@ == d,
                _ => false,
            },
    {
        self.evict_if_needed(t);
        match self.single_map.get(k) {
            None => Ok(None),
            Some(raw) => {
                let bytes = raw.as_slice();
                match parse_i64_bytes(bytes) {
                    Some(i) => {
                        if i < 0x7fff_ffff_ffff_ffffi64 {
                            Ok(Some(i + 1))
                        } else {
                            Err(incr_error(bytes, true))
                        }
                    },
                    None => Err(incr_error(bytes, false)),
                }
            },
        }
    }

    fn take_list(&mut self, k: &[u8]) -> (r: ByteList)
        requires
            old(self).wf(),
        ensures
            final(self).wf(),
            final(self)@ == (DataModel { lists: old(self)@.lists.remove(k@), ..old(self)@ }),
            r@ == list_or_empty(old(self)@.lists, k@),
    {
        match self.list_map.remove(k) {
            Some(e) => e.value,
            None => {
                let r = ByteList { items: VecDeque::with_capacity(DEFAULT_LIST_CAPACITY) };
                assert(r@ =~= Seq::<Seq<u8>>::empty());
                r
            },
        }
    }

    /// Puts `v` at the head of the list under `k`, which is made if absent.
    pub fn l_push(&mut self, k: Arc<Vec<u8>>, v: Arc<Vec<u8>>, evict_at: Option<u64>)
        requires
            old(self).wf(),
        ensures
            final(self).wf(),
            final(self)@ == l_push_spec(attach(old(self)@, k@, evict_at), k@, v@),
    {
        self.attach_if(&k, evict_at);
        let ghost mid = self@;
        let mut list = self.take_list(k.as_slice());
        let ghost before = list@;
        let ghost vv = v@;
        list.items.push_front(v);
        assert(list@ =~= seq![vv] + before);
        self.list_map.insert(k, list);
        assert(self@.lists =~= mid.lists.insert(k@, seq![vv] + list_or_empty(mid.lists, k@)));
    }

    /// Puts `v` at the end of the list under `k`, which is made if absent.
    pub fn r_push(&mut self, k: Arc<Vec<u8>>, v: Arc<Vec<u8>>, evict_at: Option<u64>)
        requires
            old(self).wf(),
        ensures
            final(self).wf(),
            final(self)@ == r_push_spec(attach(old(self)@, k@, evict_at), k@, v@),
    {
        self.attach_if(&k, evict_at);
        let ghost mid = self@;
        let mut list = self.take_list(k.as_slice());
        let ghost before = list@;
        let ghost vv = v@;
        list.items.push_back(v);
        assert(list@ =~= before.push(vv));
        self.list_map.insert(k, list);
        assert(self@.lists =~= mid.lists.insert(k@, list_or_empty(mid.lists, k@).push(vv)));
    }

    /// Removes and returns the head of the list under `k`.
    pub fn l_pop(&mut self, k: &[u8]) -> (r: Option<Arc<Vec<u8>>>)
        requires
            old(self).wf(),
        ensures
            final(self).wf(),
            final(self)@ == l_pop_spec(old(self)@, k@).0,
            match r {
                Some(v) => l_pop_spec(old(self)@, k@).1 == Some(v@),
                None => l_pop_spec(old(self)@, k@).1 is None,
            },
    {
        match self.list_map.remove(k) {
            Some(e) => {
                let mut list = e.value;
                let ghost before = list@;
                let r = list.items.pop_front();
                proof {
                    if before.len() > 0 {
                        assert(list@ =~= before.drop_first());
                    } else {
                        assert(list@ =~= before);
                    }
                }
                self.list_map.insert(e.key, list);
                assert(self@.lists =~= l_pop_spec(old(self)@, k@).0.lists);
                r
            },
            None => {
                assert(self@.lists =~= old(self)@.lists);
                None
            },
        }
    }

    /// Removes and returns the last item of the list under `k`.
    pub fn r_pop(&mut self, k: &[u8]) -> (r: Option<Arc<Vec<u8>>>)
        requires
            old(self).wf(),
        ensures
            final(self).wf(),
            final(self)@ == r_pop_spec(old(self)@, k@).0,
            match r {
                Some(v) => r_pop_spec(old(self)@, k@).1 == Some(v@),
                None => r_pop_spec(old(self)@, k@).1 is None,
            },
    {
        match self.list_map.remove(k) {
            Some(e) => {
                let mut list = e.value;
                let ghost before = list@;
                let r = list.items.pop_back();
                proof {
                    if before.len() > 0 {
                        assert(list@ =~= before.drop_last());
                    } else {
                        assert(list@ =~= before);
                    }
                }
                self.list_map.insert(e.key, list);
                assert(self@.lists =~= r_pop_spec(old(self)@, k@).0.lists);
                r
            },
            None => {
                assert(self@.lists =~= old(self)@.lists);
                None
            },
        }
    }
}

} // verus!
