//! What a similarity search finds.

use vstd::prelude::*;
use crate::bits;
use crate::bytes;
use crate::cosine;
use crate::cosine::{cosine_similarity, VectorMath};
use crate::embed;
use crate::embed::{
    pack_f32_le, scan_candidates, unpack_f32_le, PayloadView, RowView, SimilarityFn, SimilarityResult, SimilarityRow,
};
use crate::json;
use crate::json::{Json, JsonView};
use crate::laws::counting;
use crate::laws::documents;
use crate::laws::reals;
use crate::text;

verus! {

/// The list of numbers rounds to a vector, as the caller rounds.
pub open spec fn rounds_to<N: Fn(u64) -> u32>(narrow: N, a: Seq<JsonView>, v: Seq<u32>) -> bool {
    &&& a.len() == v.len()
    &&& forall|i: int|
        #![trigger a[i]]
        #![trigger v[i]]
        0 <= i < v.len() ==> (a[i] matches JsonView::Number(n) && n.real is Some && call_ensures(
            narrow,
            (n.real->0,),
            v[i],
        ))
}

/// A document stands for a vector: as a list of numbers, or as a string of bytes.
pub open spec fn stands_for<N: Fn(u64) -> u32>(narrow: N, doc: JsonView, v: Seq<u32>) -> bool {
    match doc {
        JsonView::Array(a) => rounds_to(narrow, a, v),
        JsonView::Text(s) => embed::blob_bytes(s) == Some(embed::packed(v)),
        _ => false,
    }
}

/// A candidate has an id and an embedding: as a pair, or as an object with the members
/// `row_id` and `embeds`.
pub open spec fn has_parts(el: JsonView, id: JsonView, embeds: JsonView) -> bool {
    match el {
        JsonView::Array(pair) => pair == seq![id, embeds],
        JsonView::Object(_) => documents::has(el, "row_id"@, id) && documents::has(el, "embeds"@, embeds),
        _ => false,
    }
}

/// The score of a vector: its cosine with the query, and 0 where it has another length.
pub open spec fn scores<L: Fn(&Vec<u32>) -> u32, D: Fn(u32, u32) -> u32, T: Fn(&Vec<u32>, &Vec<u32>) -> u32>(
    math: VectorMath<L, D, T>,
    q: Seq<u32>,
    v: Seq<u32>,
    s: u32,
) -> bool {
    if v.len() == q.len() {
        cosine::is_cosine(math.norm, math.divide, math.dot, q, v, s)
    } else {
        s == 0
    }
}

/// A candidate has this id and this score.
pub open spec fn rated<
    N: Fn(u64) -> u32,
    L: Fn(&Vec<u32>) -> u32,
    D: Fn(u32, u32) -> u32,
    T: Fn(&Vec<u32>, &Vec<u32>) -> u32,
>(narrow: N, math: VectorMath<L, D, T>, q: Seq<u32>, el: JsonView, id: JsonView, s: u32) -> bool {
    exists|embeds: JsonView, v: Seq<u32>| #[trigger]
        has_parts(el, id, embeds) && #[trigger] stands_for(narrow, embeds, v) && scores(math, q, v, s)
}

/// A score is at least the floor, both being numbers.
pub open spec fn reaches(floor: u32, s: u32) -> bool {
    reals::is_number_single(floor) && reals::is_number_single(s) && reals::value_single(floor) <= reals::value_single(s)
}

/// A candidate scores at least the floor.
pub open spec fn is_hit<
    N: Fn(u64) -> u32,
    L: Fn(&Vec<u32>) -> u32,
    D: Fn(u32, u32) -> u32,
    T: Fn(&Vec<u32>, &Vec<u32>) -> u32,
>(narrow: N, math: VectorMath<L, D, T>, q: Seq<u32>, floor: u32, el: JsonView) -> bool {
    exists|id: JsonView, s: u32| #[trigger] rated(narrow, math, q, el, id, s) && reaches(floor, s)
}

/// The rounding function has an answer for every number.
pub open spec fn always_rounds<N: Fn(u64) -> u32>(narrow: N) -> bool {
    forall|x: u64| #[trigger] has_rounding(narrow, x)
}

/// The rounding function has an answer for a number.
pub open spec fn has_rounding<N: Fn(u64) -> u32>(narrow: N, x: u64) -> bool {
    exists|y: u32| #[trigger] call_ensures(narrow, (x,), y)
}

/// The text of a query stands for a vector: without the white space around it, it is a
/// list of numbers, or a string of bytes.
pub open spec fn is_query<N: Fn(u64) -> u32>(narrow: N, query: Seq<char>, q: Seq<u32>) -> bool {
    let t = text::trimmed(query);
    &&& q.len() > 0
    &&& t.len() > 0
    &&& if t[0] == '[' {
        json::json_document(t) matches Ok(JsonView::Array(a)) && rounds_to(narrow, a, q)
    } else {
        embed::blob_bytes(t) == Some(embed::packed(q))
    }
}

proof fn lemma_rounds<N: Fn(u64) -> u32>(narrow: N, a: Seq<JsonView>, v: Seq<u32>)
    requires
        embed::one_rounding(narrow),
        always_rounds(narrow),
    ensures
        rounds_to(narrow, a, v) <==> json::all_numbers(a) && embed::all_rounded(narrow, json::reals(a)) == v,
{
    if rounds_to(narrow, a, v) {
        assert forall|i: int| 0 <= i < a.len() implies json::real_of(#[trigger] a[i]) is Some by {
            assert(a[i] is Number);
        }
        let w = embed::all_rounded(narrow, json::reals(a));
        assert forall|i: int| 0 <= i < v.len() implies w[i] == v[i] by {
            assert(a[i] is Number);
            let x = json::reals(a)[i];
            assert(call_ensures(narrow, (x,), v[i]));
            assert(call_ensures(narrow, (x,), embed::rounded(narrow, x)));
        }
        assert(w =~= v);
    }
    if json::all_numbers(a) && embed::all_rounded(narrow, json::reals(a)) == v {
        assert forall|i: int| 0 <= i < v.len() implies (#[trigger] a[i] matches JsonView::Number(n) && n.real is Some
            && call_ensures(narrow, (n.real->0,), v[i])) by {
            assert(json::real_of(a[i]) is Some);
            let x = json::reals(a)[i];
            assert(has_rounding(narrow, x));
            assert(call_ensures(narrow, (x,), embed::rounded(narrow, x)));
            assert(v[i] == embed::rounded(narrow, x));
        }
    }
}

proof fn lemma_blob(s: Seq<char>, v: Seq<u32>)
    ensures
        embed::blob_bytes(s) == Some(embed::packed(v)) <==> (embed::blob_bytes(s) matches Some(b) && embed::unpacked(b)
            == Some(v)),
{
    embed::law_unpack_undoes_pack(v);
    if let Some(b) = embed::blob_bytes(s) {
        if embed::unpacked(b) == Some(v) {
            embed::law_pack_undoes_unpack(b);
        }
    }
}

proof fn lemma_payload<N: Fn(u64) -> u32>(narrow: N, el: JsonView, id: JsonView, embeds: JsonView, v: Seq<u32>)
    requires
        embed::one_rounding(narrow),
        always_rounds(narrow),
        has_parts(el, id, embeds),
    ensures
        embed::row_id_of(el) == Some(id),
        embed::embeds_of(el) == Some(embeds),
        stands_for(narrow, embeds, v) <==> (embed::payload_of(el, narrow) matches Some(PayloadView::Vector(w)) && w == v),
{
    documents::law_member_is_found(el, "row_id"@, id);
    documents::law_member_is_found(el, "embeds"@, embeds);
    match embeds {
        JsonView::Array(a) => {
            lemma_rounds(narrow, a, v);
        },
        JsonView::Text(s) => {
            lemma_blob(s, v);
        },
        _ => {},
    }
}

/// What has an id and something for an embedding has its parts.
proof fn lemma_parts(el: JsonView, id: JsonView, embeds: JsonView)
    requires
        embed::row_id_of(el) == Some(id),
        embed::embeds_of(el) == Some(embeds),
    ensures
        has_parts(el, id, embeds),
{
    match el {
        JsonView::Array(pair) => {
            assert(pair =~= seq![id, embeds]);
        },
        JsonView::Object(o) => {
            lemma_field_has(o, "row_id"@, id);
            lemma_field_has(o, "embeds"@, embeds);
        },
        _ => {},
    }
}

proof fn lemma_field_has(o: Seq<(Seq<char>, JsonView)>, key: Seq<char>, v: JsonView)
    requires
        json::field(o, key) == Some(v),
    ensures
        documents::has(JsonView::Object(o), key, v),
    decreases o.len(),
{
    if o[0].0 == key {
        assert(documents::member_at(o, key, v, 0));
    } else {
        let rest = o.skip(1);
        lemma_field_has(rest, key, v);
        let i = choose|i: int| #[trigger] documents::member_at(rest, key, v, i);
        assert(o[i + 1] == (key, v));
        assert forall|j: int| 0 <= j < i + 1 implies (#[trigger] o[j]).0 != key by {
            if j > 0 {
                assert(rest[j - 1] == o[j]);
            }
        }
        assert(documents::member_at(o, key, v, i + 1));
    }
    assert(documents::has_member(o, key, v));
}

/// The row that a scan makes of a candidate, where it makes one.
spec fn row_of<
    N: Fn(u64) -> u32,
    L: Fn(&Vec<u32>) -> u32,
    D: Fn(u32, u32) -> u32,
    T: Fn(&Vec<u32>, &Vec<u32>) -> u32,
>(narrow: N, math: VectorMath<L, D, T>, q: Seq<u32>, el: JsonView) -> Option<RowView> {
    match embed::element_of(el, q, narrow, math) {
        embed::ElementView::Scored { row, .. } => Some(row),
        _ => None,
    }
}

proof fn lemma_rated<
    N: Fn(u64) -> u32,
    L: Fn(&Vec<u32>) -> u32,
    D: Fn(u32, u32) -> u32,
    T: Fn(&Vec<u32>, &Vec<u32>) -> u32,
>(narrow: N, math: VectorMath<L, D, T>, q: Seq<u32>, el: JsonView, id: JsonView, s: u32)
    requires
        embed::sound_vectors(narrow, math),
        always_rounds(narrow),
        embed::element_answered(el, q, narrow, math),
    ensures
        rated(narrow, math, q, el, id, s) <==> row_of(narrow, math, q, el) == Some(RowView { row_id: id, score: s }),
{
    if rated(narrow, math, q, el, id, s) {
        let (embeds, v) = choose|embeds: JsonView, v: Seq<u32>| #[trigger]
            has_parts(el, id, embeds) && #[trigger] stands_for(narrow, embeds, v) && scores(math, q, v, s);
        lemma_payload(narrow, el, id, embeds, v);
        if v.len() == q.len() {
            cosine::lemma_one_cosine(math, q, v, s, embed::scored(math, q, v));
        }
    }
    if row_of(narrow, math, q, el) == Some(RowView { row_id: id, score: s }) {
        let embeds = embed::embeds_of(el)->0;
        let v = embed::payload_of(el, narrow)->0->Vector_0;
        lemma_parts(el, id, embeds);
        lemma_payload(narrow, el, id, embeds, v);
        assert(has_parts(el, id, embeds) && stands_for(narrow, embeds, v) && scores(math, q, v, s));
    }
}

/// The positions of the candidates that were accepted, among the first `n`.
spec fn hit_places<
    N: Fn(u64) -> u32,
    L: Fn(&Vec<u32>) -> u32,
    D: Fn(u32, u32) -> u32,
    T: Fn(&Vec<u32>, &Vec<u32>) -> u32,
>(narrow: N, math: VectorMath<L, D, T>, q: Seq<u32>, floor: u32, els: Seq<JsonView>, n: nat) -> Seq<int>
    decreases n,
{
    if n == 0 {
        Seq::empty()
    } else {
        let before = hit_places(narrow, math, q, floor, els, (n - 1) as nat);
        match row_of(narrow, math, q, els[n - 1]) {
            Some(row) => if bits::less_eq_single(floor, row.score) {
                before.push(n - 1)
            } else {
                before
            },
            None => before,
        }
    }
}

proof fn lemma_hit_places<
    N: Fn(u64) -> u32,
    L: Fn(&Vec<u32>) -> u32,
    D: Fn(u32, u32) -> u32,
    T: Fn(&Vec<u32>, &Vec<u32>) -> u32,
>(narrow: N, math: VectorMath<L, D, T>, q: Seq<u32>, floor: u32, els: Seq<JsonView>, n: nat)
    requires
        n <= els.len(),
    ensures
        ({
            let at = hit_places(narrow, math, q, floor, els, n);
            let rows = embed::tally(els, n, q, floor, narrow, math).accepted;
            &&& at.len() == rows.len()
            &&& forall|i: int|
                #![trigger at[i]]
                #![trigger rows[i]]
                0 <= i < at.len() ==> 0 <= at[i] < n && row_of(narrow, math, q, els[at[i]]) == Some(rows[i])
                    && bits::less_eq_single(floor, rows[i].score)
            &&& forall|i: int, j: int| #![trigger at[i], at[j]] 0 <= i < j < at.len() ==> at[i] < at[j]
            &&& forall|c: int|
                #![trigger at.contains(c)]
                0 <= c < n ==> (at.contains(c) <==> (row_of(narrow, math, q, els[c]) matches Some(row)
                    && bits::less_eq_single(floor, row.score)))
        }),
    decreases n,
{
    if n > 0 {
        lemma_hit_places(narrow, math, q, floor, els, (n - 1) as nat);
        let before = hit_places(narrow, math, q, floor, els, (n - 1) as nat);
        let at = hit_places(narrow, math, q, floor, els, n);
        assert forall|c: int|
            #![trigger at.contains(c)]
            0 <= c < n implies (at.contains(c) <==> (row_of(narrow, math, q, els[c]) matches Some(row)
            && bits::less_eq_single(floor, row.score))) by {
            if c < n - 1 {
                assert(before.contains(c) <==> at.contains(c)) by {
                    if before.contains(c) {
                        let i = choose|i: int| 0 <= i < before.len() && before[i] == c;
                        assert(at[i] == c);
                    }
                    if at.contains(c) {
                        let i = choose|i: int| 0 <= i < at.len() && at[i] == c;
                        if i < before.len() {
                            assert(before[i] == c);
                        }
                    }
                }
            } else {
                if at.len() > before.len() {
                    assert(at[before.len() as int] == c);
                }
                if at.contains(c) && at.len() == before.len() {
                    let i = choose|i: int| 0 <= i < at.len() && at[i] == c;
                    assert(before[i] == c);
                }
            }
        }
    }
}

/// What a search over candidates finds among the ones it looked at: at most `k` rows,
/// each the id and the score of a candidate that reaches the floor, each candidate at
/// most once; all of those candidates where there are no more than `k`; the highest
/// scores first, and none left out that scores higher than one that is listed.
pub open spec fn finds_the_best<
    N: Fn(u64) -> u32,
    L: Fn(&Vec<u32>) -> u32,
    D: Fn(u32, u32) -> u32,
    T: Fn(&Vec<u32>, &Vec<u32>) -> u32,
>(narrow: N, math: VectorMath<L, D, T>, q: Seq<u32>, floor: u32, k: nat, els: Seq<JsonView>, r: SimilarityResult) -> bool {
    let hits = counting::places(r.scanned as nat, |c: int| is_hit(narrow, math, q, floor, els[c]));
    let rows = r.results@;
    &&& rows.len() == if hits.len() <= k {
        hits.len()
    } else {
        k
    }
    &&& forall|j: int| 0 <= j < rows.len() ==> reaches(floor, (#[trigger] rows[j]).score)
    &&& forall|i: int, j: int|
        #![trigger rows[i], rows[j]]
        0 <= i < j < rows.len() ==> reals::value_single(rows[i].score) >= reals::value_single(rows[j].score)
    &&& exists|from: Seq<int>| #[trigger] come_from(narrow, math, q, floor, els, r, from)
}

/// The results come from these candidates, each from another one, and a candidate that
/// reaches the floor and is not among them scores no higher than any result.
pub open spec fn come_from<
    N: Fn(u64) -> u32,
    L: Fn(&Vec<u32>) -> u32,
    D: Fn(u32, u32) -> u32,
    T: Fn(&Vec<u32>, &Vec<u32>) -> u32,
>(
    narrow: N,
    math: VectorMath<L, D, T>,
    q: Seq<u32>,
    floor: u32,
    els: Seq<JsonView>,
    r: SimilarityResult,
    from: Seq<int>,
) -> bool {
    &&& from.len() == r.results@.len()
    &&& from.no_duplicates()
    &&& forall|j: int|
        #![trigger from[j]]
        #![trigger r.results@[j]]
        0 <= j < from.len() ==> 0 <= from[j] < r.scanned && rated(
            narrow,
            math,
            q,
            els[from[j]],
            r.results@[j].row_id@,
            r.results@[j].score,
        )
    &&& forall|c: int, id: JsonView, s: u32, j: int|
        #![trigger rated(narrow, math, q, els[c], id, s), r.results@[j]]
        0 <= c < r.scanned && !from.contains(c) && rated(narrow, math, q, els[c], id, s) && reaches(floor, s) && 0 <= j
            < from.len() ==> reals::value_single(s) <= reals::value_single(r.results@[j].score)
}

proof fn lemma_ranked(a: u32, b: u32)
    requires
        reals::is_number_single(a),
        reals::is_number_single(b),
        bits::total_rank(a) >= bits::total_rank(b),
    ensures
        reals::value_single(a) >= reals::value_single(b),
{
    reals::law_total_order_follows_values(a, b);
}

proof fn lemma_reaches(floor: u32, s: u32)
    ensures
        bits::less_eq_single(floor, s) == reaches(floor, s),
{
    reals::law_single_order_is_of_values(floor, s);
}

proof fn lemma_finds<
    N: Fn(u64) -> u32,
    L: Fn(&Vec<u32>) -> u32,
    D: Fn(u32, u32) -> u32,
    T: Fn(&Vec<u32>, &Vec<u32>) -> u32,
    F: Fn() -> bool,
>(
    els: Seq<JsonView>,
    q: Seq<u32>,
    k: nat,
    floor: u32,
    narrow: N,
    math: VectorMath<L, D, T>,
    requested: F,
    r: SimilarityResult,
)
    requires
        embed::sound_vectors(narrow, math),
        always_rounds(narrow),
        embed::scan_result(els, q, k, floor, narrow, math, requested, r),
    ensures
        finds_the_best(narrow, math, q, floor, k, els, r),
{
    let n = r.scanned as nat;
    let places = hit_places(narrow, math, q, floor, els, n);
    let rows = embed::tally(els, n, q, floor, narrow, math).accepted;
    let out = embed::row_views(r.results@);
    let at = choose|at: Seq<int>| #[trigger] embed::kept_at(rows, k, out, at);
    let f = |c: int| is_hit(narrow, math, q, floor, els[c]);
    lemma_hit_places(narrow, math, q, floor, els, n);
    assert forall|c: int| 0 <= c < n implies (#[trigger] places.contains(c) <==> is_hit(narrow, math, q, floor, els[c])) by {
        assert(embed::element_answered(els[c], q, narrow, math));
        if places.contains(c) {
            let row = row_of(narrow, math, q, els[c])->0;
            lemma_rated(narrow, math, q, els[c], row.row_id, row.score);
            lemma_reaches(floor, row.score);
            assert(rated(narrow, math, q, els[c], row.row_id, row.score) && reaches(floor, row.score));
        }
        if is_hit(narrow, math, q, floor, els[c]) {
            let (id, s) = choose|id: JsonView, s: u32| #[trigger]
                rated(narrow, math, q, els[c], id, s) && reaches(floor, s);
            lemma_rated(narrow, math, q, els[c], id, s);
            lemma_reaches(floor, s);
        }
    }
    assert(places.no_duplicates());
    places.unique_seq_to_set();
    assert(places.to_set() =~= counting::places(n, f)) by {
        assert forall|c: int| places.to_set().contains(c) <==> counting::places(n, f).contains(c) by {
            if places.contains(c) {
                let i = choose|i: int| 0 <= i < places.len() && places[i] == c;
                assert(0 <= places[i] < n);
            }
            if 0 <= c < n {
                assert(places.contains(c) <==> is_hit(narrow, math, q, floor, els[c]));
            }
        }
    }
    let from = Seq::new(at.len(), |j: int| places[at[j]]);
    assert forall|j: int|
        #![trigger r.results@[j]]
        0 <= j < out.len() implies reaches(floor, r.results@[j].score) && 0 <= from[j] < n && rated(
        narrow,
        math,
        q,
        els[from[j]],
        r.results@[j].row_id@,
        r.results@[j].score,
    ) by {
        assert(out[j] == r.results@[j]@);
        assert(out[j] == rows[at[j]]);
        assert(row_of(narrow, math, q, els[places[at[j]]]) == Some(rows[at[j]]));
        assert(embed::element_answered(els[from[j]], q, narrow, math));
        lemma_rated(narrow, math, q, els[from[j]], rows[at[j]].row_id, rows[at[j]].score);
        lemma_reaches(floor, rows[at[j]].score);
    }
    assert(from.no_duplicates()) by {
        assert forall|i: int, j: int| 0 <= i < from.len() && 0 <= j < from.len() && i != j implies from[i] != from[j] by {
            assert(at[i] != at[j]);
            if at[i] < at[j] {
                assert(places[at[i]] < places[at[j]]);
            } else {
                assert(places[at[j]] < places[at[i]]);
            }
        }
    }
    assert forall|c: int, id: JsonView, s: u32, j: int|
        #![trigger rated(narrow, math, q, els[c], id, s), r.results@[j]]
        0 <= c < r.scanned && !from.contains(c) && rated(narrow, math, q, els[c], id, s) && reaches(floor, s) && 0 <= j
            < from.len() implies reals::value_single(s) <= reals::value_single(r.results@[j].score) by {
        assert(embed::element_answered(els[c], q, narrow, math));
        lemma_rated(narrow, math, q, els[c], id, s);
        assert(is_hit(narrow, math, q, floor, els[c]));
        assert(places.contains(c));
        let x = choose|x: int| 0 <= x < places.len() && places[x] == c;
        assert(rows[x].score == s);
        if at.contains(x) {
            let i = choose|i: int| 0 <= i < at.len() && at[i] == x;
            assert(from[i] == c);
        }
        assert(out[j] == r.results@[j]@);
        assert(bits::total_rank(rows[x].score) <= bits::total_rank(out[j].score));
        assert(reaches(floor, r.results@[j].score));
        lemma_ranked(out[j].score, s);
    }
    assert forall|j: int|
        #![trigger from[j]]
        #![trigger r.results@[j]]
        0 <= j < from.len() implies 0 <= from[j] < r.scanned && rated(
        narrow,
        math,
        q,
        els[from[j]],
        r.results@[j].row_id@,
        r.results@[j].score,
    ) by {
        assert(reaches(floor, r.results@[j].score));
    }
    assert(come_from(narrow, math, q, floor, els, r, from));
    assert forall|i: int, j: int|
        #![trigger r.results@[i], r.results@[j]]
        0 <= i < j < r.results@.len() implies reals::value_single(r.results@[i].score) >= reals::value_single(
        r.results@[j].score,
    ) by {
        assert(out[i] == r.results@[i]@ && out[j] == r.results@[j]@);
        assert(reaches(floor, r.results@[i].score) && reaches(floor, r.results@[j].score));
        lemma_ranked(r.results@[i].score, r.results@[j].score);
    }
}

proof fn lemma_query<N: Fn(u64) -> u32>(narrow: N, query: Seq<char>, q: Seq<u32>)
    requires
        embed::one_rounding(narrow),
        always_rounds(narrow),
        is_query(narrow, query, q),
    ensures
        embed::query_in(query, narrow) == Ok::<Seq<u32>, Seq<char>>(q),
{
    let t = text::trimmed(query);
    if t[0] == '[' {
        lemma_rounds(narrow, json::json_document(t)->Ok_0->Array_0, q);
    } else {
        lemma_blob(t, q);
    }
}

/// The bound that a threshold sets: itself where it lies between -1 and 1, else the end
/// of that range on its side.
pub open spec fn bounds(threshold: u64, bound: u64) -> bool {
    &&& reals::is_number(threshold)
    &&& -reals::value(bits::ONE) <= reals::value(threshold) <= reals::value(bits::ONE) ==> bound == threshold
    &&& reals::value(threshold) > reals::value(bits::ONE) ==> bound == bits::ONE
    &&& reals::value(threshold) < -reals::value(bits::ONE) ==> bound == bits::MINUS_ONE
}

proof fn lemma_bound(threshold: u64, bound: u64)
    requires
        bounds(threshold, bound),
    ensures
        bits::clamped(threshold) == bound,
{
    reals::law_constants_have_their_values();
    reals::law_order_is_of_values(threshold, bits::MINUS_ONE);
    reals::law_order_is_of_values(bits::ONE, threshold);
}

/// The threshold that the arguments of a call ask for: the fourth one of the first row,
/// and 0 where there are fewer arguments or it is null.
pub open spec fn asks_threshold(columns: usize, rows: Seq<SimilarityRow>, threshold: u64) -> bool {
    if columns == 4 && rows[0].threshold is Some {
        rows[0].threshold == Some(threshold)
    } else {
        threshold == bits::ZERO
    }
}

/// The number of results that the arguments of a call ask for: the third one of the
/// first row, and 10 where there are fewer arguments or it is null.
pub open spec fn asks_results(columns: usize, rows: Seq<SimilarityRow>, k: usize) -> bool {
    if columns >= 3 && rows[0].k is Some {
        rows[0].k == Some(k as u64)
    } else {
        k == 10
    }
}

/// Every result of every row of a call scores at least the threshold that is given as
/// the fourth argument of the first row, rounded as the caller rounds.
pub proof fn law_results_reach_the_given_threshold<
    N: Fn(u64) -> u32,
    L: Fn(&Vec<u32>) -> u32,
    D: Fn(u32, u32) -> u32,
    T: Fn(&Vec<u32>, &Vec<u32>) -> u32,
    F: Fn() -> bool,
>(
    rows: Vec<SimilarityRow>,
    narrow: N,
    math: VectorMath<L, D, T>,
    requested: F,
    out: Vec<Option<SimilarityResult>>,
    threshold: u64,
    floor: u32,
    i: int,
    j: int,
)
    requires
        call_ensures(SimilarityFn::invoke::<N, L, D, T, F>, (4usize, &rows, &narrow, &math, &requested), Ok(out)),
        embed::sound_vectors(narrow, math),
        rows@.len() > 0,
        rows@[0].threshold == Some(threshold),
        reals::is_number(threshold),
        -reals::value(bits::ONE) <= reals::value(threshold) <= reals::value(bits::ONE),
        call_ensures(narrow, (threshold,), floor),
        0 <= i < out@.len(),
        out@[i] is Some,
        0 <= j < out@[i]->0.results@.len(),
    ensures
        reals::is_number_single(out@[i]->0.results@[j].score),
        reals::value_single(floor) <= reals::value_single(out@[i]->0.results@[j].score),
{
    lemma_bound(threshold, threshold);
    let result = out@[i]->0;
    assert(call_ensures(narrow, (threshold,), embed::rounded(narrow, threshold)));
    let q = embed::query_in(rows@[i].query->0@, narrow)->Ok_0;
    let els = embed::candidates_in(
        rows@[i].candidates->0@,
        json::json_document(rows@[i].candidates->0@),
    )->Ok_0;
    let k = embed::wanted(4, rows@) as nat;
    let most = if k <= embed::K_CAP {
        k
    } else {
        embed::K_CAP as nat
    };
    assert(embed::scan_result(els, q, most, floor, narrow, math, requested, result));
    embed::law_results_reach_threshold(els, q, most, floor, narrow, math, requested, result, j);
    lemma_reaches(floor, result.results@[j].score);
}

/// Each row of a call finds the best of its candidates for its query: as many as the
/// third argument of the first row asks for, at most 10000, of those that reach the
/// threshold that the fourth asks for; it looks at all of them unless it is stopped.
pub proof fn law_rows_find_the_best<
    N: Fn(u64) -> u32,
    L: Fn(&Vec<u32>) -> u32,
    D: Fn(u32, u32) -> u32,
    T: Fn(&Vec<u32>, &Vec<u32>) -> u32,
    F: Fn() -> bool,
>(
    columns: usize,
    rows: Vec<SimilarityRow>,
    narrow: N,
    math: VectorMath<L, D, T>,
    requested: F,
    out: Vec<Option<SimilarityResult>>,
    k: usize,
    threshold: u64,
    bound: u64,
    floor: u32,
    i: int,
    q: Seq<u32>,
    els: Seq<JsonView>,
)
    requires
        call_ensures(SimilarityFn::invoke::<N, L, D, T, F>, (columns, &rows, &narrow, &math, &requested), Ok(out)),
        embed::sound_vectors(narrow, math),
        always_rounds(narrow),
        rows@.len() > 0,
        asks_results(columns, rows@, k),
        asks_threshold(columns, rows@, threshold),
        bounds(threshold, bound),
        call_ensures(narrow, (bound,), floor),
        0 <= i < rows@.len(),
        rows@[i].query is Some,
        rows@[i].candidates is Some,
        is_query(narrow, rows@[i].query->0@, q),
        text::trimmed(rows@[i].candidates->0@).len() > 0,
        json::json_document(rows@[i].candidates->0@) == Ok::<JsonView, Seq<char>>(JsonView::Array(els)),
    ensures
        out@.len() == rows@.len(),
        out@[i] is Some,
        finds_the_best(
            narrow,
            math,
            q,
            floor,
            if k <= 10000 {
                k as nat
            } else {
                10000
            },
            els,
            out@[i]->0,
        ),
        !out@[i]->0.cancelled ==> out@[i]->0.scanned == els.len(),
        out@[i]->0.cancelled ==> call_ensures(requested, (), true),
{
    lemma_bound(threshold, bound);
    lemma_query(narrow, rows@[i].query->0@, q);
    let result = out@[i]->0;
    assert(call_ensures(narrow, (bound,), embed::rounded(narrow, bound)));
    assert(k == embed::wanted(columns as int, rows@));
    assert(threshold == embed::wanted_floor(columns as int, rows@));
    let most = if k <= embed::K_CAP {
        k as nat
    } else {
        embed::K_CAP as nat
    };
    assert(embed::scan_result(els, q, most, floor, narrow, math, requested, result));
    lemma_finds(els, q, most, floor, narrow, math, requested, result);
}

/// A call gives one result for each row: null where the query or the candidates are.
pub proof fn law_null_rows_give_nulls<
    N: Fn(u64) -> u32,
    L: Fn(&Vec<u32>) -> u32,
    D: Fn(u32, u32) -> u32,
    T: Fn(&Vec<u32>, &Vec<u32>) -> u32,
    F: Fn() -> bool,
>(
    columns: usize,
    rows: Vec<SimilarityRow>,
    narrow: N,
    math: VectorMath<L, D, T>,
    requested: F,
    out: Vec<Option<SimilarityResult>>,
    i: int,
)
    requires
        call_ensures(SimilarityFn::invoke::<N, L, D, T, F>, (columns, &rows, &narrow, &math, &requested), Ok(out)),
        0 <= i < rows@.len(),
    ensures
        2 <= columns <= 4,
        out@.len() == rows@.len(),
        out@[i] is None <==> rows@[i].query is None || rows@[i].candidates is None,
{
}

/// A candidate has a null for an embedding.
pub open spec fn is_null(el: JsonView) -> bool {
    exists|id: JsonView| #[trigger] has_parts(el, id, JsonView::Null)
}

/// A candidate has an id and an embedding.
pub open spec fn is_complete<N: Fn(u64) -> u32>(narrow: N, el: JsonView) -> bool {
    exists|id: JsonView, embeds: JsonView, v: Seq<u32>| #[trigger]
        has_parts(el, id, embeds) && #[trigger] stands_for(narrow, embeds, v)
}

/// A candidate has an embedding of another length than the query.
pub open spec fn is_other_length<N: Fn(u64) -> u32>(narrow: N, q: Seq<u32>, el: JsonView) -> bool {
    exists|id: JsonView, embeds: JsonView, v: Seq<u32>| #[trigger]
        has_parts(el, id, embeds) && #[trigger] stands_for(narrow, embeds, v) && v.len() != q.len()
}

proof fn lemma_kind<
    N: Fn(u64) -> u32,
    L: Fn(&Vec<u32>) -> u32,
    D: Fn(u32, u32) -> u32,
    T: Fn(&Vec<u32>, &Vec<u32>) -> u32,
>(narrow: N, math: VectorMath<L, D, T>, q: Seq<u32>, el: JsonView)
    requires
        embed::one_rounding(narrow),
        always_rounds(narrow),
    ensures
        is_null(el) <==> embed::element_of(el, q, narrow, math) is Missing,
        is_complete(narrow, el) <==> embed::element_of(el, q, narrow, math) is Scored,
        is_other_length(narrow, q, el) <==> (embed::element_of(el, q, narrow, math) matches embed::ElementView::Scored {
            row,
            mismatch,
        } && mismatch),
{
    if is_null(el) {
        let id = choose|id: JsonView| #[trigger] has_parts(el, id, JsonView::Null);
        lemma_payload(narrow, el, id, JsonView::Null, Seq::empty());
    }
    if is_complete(narrow, el) {
        let (id, embeds, v) = choose|id: JsonView, embeds: JsonView, v: Seq<u32>| #[trigger]
            has_parts(el, id, embeds) && #[trigger] stands_for(narrow, embeds, v);
        lemma_payload(narrow, el, id, embeds, v);
    }
    if is_other_length(narrow, q, el) {
        let (id, embeds, v) = choose|id: JsonView, embeds: JsonView, v: Seq<u32>| #[trigger]
            has_parts(el, id, embeds) && #[trigger] stands_for(narrow, embeds, v) && v.len() != q.len();
        lemma_payload(narrow, el, id, embeds, v);
    }
    if let (Some(id), Some(embeds)) = (embed::row_id_of(el), embed::embeds_of(el)) {
        lemma_parts(el, id, embeds);
        if let Some(PayloadView::Vector(v)) = embed::payload_of(el, narrow) {
            lemma_payload(narrow, el, id, embeds, v);
        }
    }
}

proof fn lemma_skips<
    N: Fn(u64) -> u32,
    L: Fn(&Vec<u32>) -> u32,
    D: Fn(u32, u32) -> u32,
    T: Fn(&Vec<u32>, &Vec<u32>) -> u32,
>(narrow: N, math: VectorMath<L, D, T>, q: Seq<u32>, floor: u32, els: Seq<JsonView>, n: nat)
    requires
        embed::one_rounding(narrow),
        always_rounds(narrow),
        n <= els.len(),
    ensures
        ({
            let t = embed::tally(els, n, q, floor, narrow, math);
            &&& t.missing == counting::places(n, |c: int| is_null(els[c])).len()
            &&& t.mismatched == counting::places(n, |c: int| is_other_length(narrow, q, els[c])).len()
            &&& t.malformed == counting::places(n, |c: int| !is_null(els[c]) && !is_complete(narrow, els[c])).len()
        }),
    decreases n,
{
    let f = |c: int| is_null(els[c]);
    let g = |c: int| is_other_length(narrow, q, els[c]);
    let h = |c: int| !is_null(els[c]) && !is_complete(narrow, els[c]);
    if n == 0 {
        counting::lemma_no_place(f);
        counting::lemma_no_place(g);
        counting::lemma_no_place(h);
    } else {
        lemma_skips(narrow, math, q, floor, els, (n - 1) as nat);
        lemma_kind(narrow, math, q, els[n - 1]);
        counting::lemma_one_more((n - 1) as nat, f);
        counting::lemma_one_more((n - 1) as nat, g);
        counting::lemma_one_more((n - 1) as nat, h);
    }
}

/// The counts of a scan tell the candidates that it looked at apart: those with a null,
/// those with an embedding of another length, and those without a readable embedding.
pub proof fn law_skipped_candidates_are_counted<
    N: Fn(u64) -> u32,
    L: Fn(&Vec<u32>) -> u32,
    D: Fn(u32, u32) -> u32,
    T: Fn(&Vec<u32>, &Vec<u32>) -> u32,
    F: Fn() -> bool,
>(
    els: Vec<Json>,
    q: Vec<u32>,
    k: usize,
    threshold: u32,
    narrow: N,
    math: VectorMath<L, D, T>,
    requested: F,
    r: SimilarityResult,
)
    requires
        call_ensures(
            scan_candidates::<N, L, D, T, F>,
            (&els, &q, k, threshold, &narrow, &math, &requested),
            r,
        ),
        embed::one_rounding(narrow),
        always_rounds(narrow),
    ensures
        r.scanned <= els@.len(),
        r.skipped_null == counting::places(r.scanned as nat, |c: int| is_null(els@[c]@)).len(),
        r.skipped_dim == counting::places(r.scanned as nat, |c: int| is_other_length(narrow, q@, els@[c]@)).len(),
        r.skipped_bad_len == counting::places(
            r.scanned as nat,
            |c: int| !is_null(els@[c]@) && !is_complete(narrow, els@[c]@),
        ).len(),
{
    let all = json::views(els@);
    let n = r.scanned as nat;
    lemma_skips(narrow, math, q@, threshold, all, n);
    assert(counting::places(n, |c: int| is_null(els@[c]@)) =~= counting::places(n, |c: int| is_null(all[c])));
    assert(counting::places(n, |c: int| is_other_length(narrow, q@, els@[c]@)) =~= counting::places(
        n,
        |c: int| is_other_length(narrow, q@, all[c]),
    ));
    assert(counting::places(n, |c: int| !is_null(els@[c]@) && !is_complete(narrow, els@[c]@)) =~= counting::places(
        n,
        |c: int| !is_null(all[c]) && !is_complete(narrow, all[c]),
    ));
}

/// The length of a vector is that of a direction: finite, and more than the distance
/// between 1 and the next number.
pub open spec fn has_direction(n: u32) -> bool {
    reals::is_number_single(n) && -reals::value_single(0x7f80_0000) < reals::value_single(n) < reals::value_single(
        0x7f80_0000,
    ) && reals::value_single(n) > reals::value_single(cosine::EPSILON)
}

/// Each element of a vector divided by its length.
pub open spec fn is_divided<D: Fn(u32, u32) -> u32>(divide: D, v: Seq<u32>, n: u32, out: &Vec<u32>) -> bool {
    out@.len() == v.len() && forall|i: int| 0 <= i < v.len() ==> call_ensures(divide, (v[i], n), #[trigger] out@[i])
}

/// The similarity of two vectors of one length that have directions is the product of
/// the two vectors, each divided by its length; brought to the nearest end of the range
/// from -1 to 1 where rounding left it outside, and 0 where it is not finite. It is 0
/// as soon as the lengths differ or one vector has no direction.
pub proof fn law_cosine_is_the_product_of_directions<
    N: Fn(&Vec<u32>) -> u32,
    D: Fn(u32, u32) -> u32,
    P: Fn(&Vec<u32>, &Vec<u32>) -> u32,
>(a: Vec<u32>, b: Vec<u32>, norm: N, divide: D, dot: P, r: u32)
    requires
        call_ensures(cosine_similarity::<N, D, P>, (&a, &b, &norm, &divide, &dot), r),
    ensures
        a@.len() != b@.len() || a@.len() == 0 ==> r == 0,
        a@.len() == b@.len() && a@.len() > 0 ==> exists|x: &Vec<u32>, y: &Vec<u32>, m: u32, n: u32| #[trigger]
            call_ensures(norm, (x,), m) && #[trigger] call_ensures(norm, (y,), n) && x@ == a@ && y@ == b@ && if has_direction(
                m,
            ) && has_direction(n) {
                is_product(divide, dot, a@, m, b@, n, r)
            } else {
                r == 0
            },
{
    if a@.len() == b@.len() && a@.len() > 0 {
        let (x, y) = choose|x: Option<Seq<u32>>, y: Option<Seq<u32>>| #[trigger]
            cosine::normalizes(norm, divide, a@, x) && #[trigger] cosine::normalizes(norm, divide, b@, y) && match (
                x,
                y,
            ) {
                (Some(x), Some(y)) => cosine::compares(dot, x, y, r),
                _ => r == cosine::ZERO,
            };
        let m = choose|n: u32| #[trigger]
            cosine::has_norm(norm, a@, n) && match x {
                Some(out) => cosine::long_enough(n) && cosine::scaled(divide, a@, n, out),
                None => !cosine::long_enough(n),
            };
        let n = choose|n: u32| #[trigger]
            cosine::has_norm(norm, b@, n) && match y {
                Some(out) => cosine::long_enough(n) && cosine::scaled(divide, b@, n, out),
                None => !cosine::long_enough(n),
            };
        let p = choose|p: &Vec<u32>| p@ == a@ && #[trigger] call_ensures(norm, (p,), m);
        let q = choose|p: &Vec<u32>| p@ == b@ && #[trigger] call_ensures(norm, (p,), n);
        lemma_direction(m);
        lemma_direction(n);
        if has_direction(m) && has_direction(n) {
            let d = choose|d: u32| #[trigger]
                cosine::has_dot(dot, x->0, y->0, d) && r == if cosine::finite(d) {
                    cosine::clamped(d)
                } else {
                    cosine::ZERO
                };
            let (u, v) = choose|u: &Vec<u32>, v: &Vec<u32>|
                u@ == x->0 && v@ == y->0 && #[trigger] call_ensures(dot, (u, v), d);
            lemma_unit(d);
            assert(is_divided(divide, a@, m, u) && is_divided(divide, b@, n, v));
            assert(is_product(divide, dot, a@, m, b@, n, r));
        }
        assert(call_ensures(norm, (p,), m) && call_ensures(norm, (q,), n));
    }
}

/// The number is the product of two divided vectors, brought into range.
pub open spec fn is_product<D: Fn(u32, u32) -> u32, P: Fn(&Vec<u32>, &Vec<u32>) -> u32>(
    divide: D,
    dot: P,
    a: Seq<u32>,
    m: u32,
    b: Seq<u32>,
    n: u32,
    r: u32,
) -> bool {
    exists|u: &Vec<u32>, v: &Vec<u32>, d: u32| #[trigger]
        call_ensures(dot, (u, v), d) && is_divided(divide, a, m, u) && is_divided(divide, b, n, v) && is_unit_part(d, r)
}

/// The second number is the first brought into the range from -1 to 1, and 0 where it
/// is not finite.
pub open spec fn is_unit_part(d: u32, r: u32) -> bool {
    let one = reals::value_single(cosine::ONE);
    let end = reals::value_single(0x7f80_0000);
    if !reals::is_number_single(d) || reals::value_single(d) >= end || reals::value_single(d) <= -end {
        r == 0
    } else if reals::value_single(d) > one {
        r == cosine::ONE
    } else if reals::value_single(d) < -one {
        r == cosine::MINUS_ONE
    } else {
        r == d
    }
}

proof fn lemma_direction(n: u32)
    ensures
        cosine::long_enough(n) == has_direction(n),
{
    reals::law_single_order_is_of_values(n, cosine::EPSILON);
    reals::law_single_order_is_of_values(0x7f80_0000, n);
    reals::law_single_order_is_of_values(n, 0xff80_0000);
}

proof fn lemma_unit(d: u32)
    ensures
        is_unit_part(
            d,
            if cosine::finite(d) {
                cosine::clamped(d)
            } else {
                cosine::ZERO
            },
        ),
{
    reals::law_single_order_is_of_values(cosine::MINUS_ONE, d);
    reals::law_single_order_is_of_values(d, cosine::ONE);
    reals::law_single_order_is_of_values(0x7f80_0000, d);
    reals::law_single_order_is_of_values(d, 0xff80_0000);
}

/// An embedding is kept as four bytes for each number, the lowest first, and is read
/// back from them.
pub proof fn law_blob_is_little_endian(v: &[u32], out: Vec<u8>, i: int, j: int)
    requires
        call_ensures(pack_f32_le, (v,), out),
        0 <= i < v@.len(),
        0 <= j < 4,
    ensures
        out@.len() == 4 * v@.len(),
        j == 0 ==> out@[4 * i + j] == v@[i] % 256,
        j == 1 ==> out@[4 * i + j] == v@[i] / 256 % 256,
        j == 2 ==> out@[4 * i + j] == v@[i] / 65536 % 256,
        j == 3 ==> out@[4 * i + j] == v@[i] / 16777216 % 256,
{
    embed::lemma_packed_len(v@);
    embed::lemma_packed_at(v@, i);
    let four = embed::packed(v@).subrange(4 * i, 4 * i + 4);
    assert(four[j] == out@[4 * i + j]);
    reveal_with_fuel(bytes::le_bytes, 5);
}

/// A blob is read as an embedding exactly where it has four bytes for each number, and
/// writing the embedding gives the blob again.
pub proof fn law_embedding_reads_back(data: &[u8], r: Option<Vec<u32>>, v: &[u32], out: Vec<u8>)
    requires
        call_ensures(unpack_f32_le, (data,), r),
        call_ensures(pack_f32_le, (v,), out),
        r matches Some(w) ==> v@ == w@,
    ensures
        r is Some <==> data@.len() % 4 == 0,
        r is Some ==> out@ == data@,
{
    if r is Some {
        embed::law_pack_undoes_unpack(data@);
    }
}

} // verus!
