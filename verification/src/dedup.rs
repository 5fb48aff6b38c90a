//! The post-ingestion deduplication pass.
//!
//! Rows are grouped by postcode. A group covering exactly one street — every
//! member naming the same street — is collapsed into one representative row:
//! the first member's fields, with the coordinates replaced by the group
//! mean (rounded toward zero) and the house number, house name and state
//! cleared, since they are not aggregatable across a group. Groups covering
//! more than one street are ambiguous and are left untouched. The resulting
//! table holds the untouched rows in their original order, followed by one
//! representative per collapsed group in order of first occurrence.

use vstd::prelude::*;

use crate::record::NodeRecord;
use crate::record::RecordView;
use crate::record::clone_opt;
use crate::record::ready;
use crate::record::records_view;
use crate::store::Store;
use crate::store::all_ready;
use crate::store::distinct_ids;
use crate::text::str_eq;
use vstd::arithmetic::div_mod::lemma_div_is_ordered;
use vstd::arithmetic::div_mod::lemma_div_multiples_vanish;

verus! {

/// The rows sharing a postcode, in row order.
pub open spec fn group_of(rows: Seq<RecordView>, pc: Option<Seq<char>>) -> Seq<RecordView>
    decreases rows.len(),
{
    if rows.len() == 0 {
        Seq::empty()
    } else {
        group_of(rows.drop_last(), pc) + (if rows.last().postcode == pc {
            seq![rows.last()]
        } else {
            Seq::<RecordView>::empty()
        })
    }
}

/// Whether the rows sharing the given postcode cover exactly one street:
/// every two of them name the same street.
pub open spec fn streets_agree(rows: Seq<RecordView>, pc: Option<Seq<char>>) -> bool {
    forall|i: int, j: int|
        0 <= i < rows.len() && 0 <= j < rows.len() && (#[trigger] rows[i]).postcode == pc && (
        #[trigger] rows[j]).postcode == pc ==> rows[i].street == rows[j].street
}

/// Whether row `i` is the first of its postcode group.
pub open spec fn is_first_of_group(rows: Seq<RecordView>, i: int) -> bool {
    forall|j: int| 0 <= j < i ==> (#[trigger] rows[j]).postcode != rows[i].postcode
}

/// The sum of a group's latitudes.
pub open spec fn sum_lat(g: Seq<RecordView>) -> int
    decreases g.len(),
{
    if g.len() == 0 {
        0
    } else {
        sum_lat(g.drop_last()) + g.last().lat
    }
}

/// The sum of a group's longitudes.
pub open spec fn sum_lon(g: Seq<RecordView>) -> int
    decreases g.len(),
{
    if g.len() == 0 {
        0
    } else {
        sum_lon(g.drop_last()) + g.last().lon
    }
}

/// Integer mean, rounded toward zero.
pub open spec fn mean_toward_zero(sum: int, n: int) -> int {
    if sum >= 0 {
        sum / n
    } else {
        -((-sum) / n)
    }
}

/// The representative of a collapsed group: the first member's fields, the
/// coordinates replaced by the group mean, the house number, house name and
/// state cleared.
pub open spec fn collapsed(g: Seq<RecordView>) -> RecordView {
    RecordView {
        id: g[0].id,
        lat: mean_toward_zero(sum_lat(g), g.len() as int),
        lon: mean_toward_zero(sum_lon(g), g.len() as int),
        postcode: g[0].postcode,
        street: g[0].street,
        city: g[0].city,
        country: g[0].country,
        province: g[0].province,
        state: None,
        house_number: None,
        house_name: None,
        source: g[0].source,
        source_date: g[0].source_date,
        version: g[0].version,
    }
}

/// The rows among the first `n` whose postcode group is ambiguous, in row
/// order: the pass leaves them untouched.
pub open spec fn kept_rows(rows: Seq<RecordView>, n: int) -> Seq<RecordView>
    decreases n,
{
    if n <= 0 {
        Seq::empty()
    } else {
        kept_rows(rows, n - 1) + (if !streets_agree(rows, rows[n - 1].postcode) {
            seq![rows[n - 1]]
        } else {
            Seq::<RecordView>::empty()
        })
    }
}

/// The representatives of the collapsed groups whose first member is among
/// the first `n` rows, in order of first occurrence.
pub open spec fn rep_rows(rows: Seq<RecordView>, n: int) -> Seq<RecordView>
    decreases n,
{
    if n <= 0 {
        Seq::empty()
    } else {
        rep_rows(rows, n - 1) + (if is_first_of_group(rows, n - 1) && streets_agree(
            rows,
            rows[n - 1].postcode,
        ) {
            seq![collapsed(group_of(rows, rows[n - 1].postcode))]
        } else {
            Seq::<RecordView>::empty()
        })
    }
}

/// What the deduplication pass leaves in the store: the ambiguous rows in
/// their original order, then one representative per collapsed group.
pub open spec fn dedup_spec(rows: Seq<RecordView>) -> Seq<RecordView> {
    kept_rows(rows, rows.len() as int) + rep_rows(rows, rows.len() as int)
}

/// Compares two optional strings by value.
fn opt_str_eq(a: &Option<String>, b: &Option<String>) -> (r: bool)
    ensures
        r == (a.deep_view() == b.deep_view()),
{
    match (a, b) {
        (Some(x), Some(y)) => str_eq(x.as_str(), y.as_str()),
        (None, None) => true,
        _ => false,
    }
}

/// Decides whether row `i` is the first of its postcode group.
fn is_first_occurrence(rows: &Vec<NodeRecord>, i: usize) -> (r: bool)
    requires
        i < rows@.len(),
    ensures
        r == is_first_of_group(records_view(rows@), i as int),
{
    let ghost all = records_view(rows@);
    let mut j: usize = 0;
    while j < i
        invariant
            j <= i < rows@.len(),
            all == records_view(rows@),
            forall|k: int| 0 <= k < j ==> (#[trigger] all[k]).postcode != all[i as int].postcode,
        decreases i - j,
    {
        if opt_str_eq(&rows[j].postcode, &rows[i].postcode) {
            proof {
                assert(all[j as int].postcode == all[i as int].postcode);
            }
            return false;
        }
        j = j + 1;
    }
    true
}

/// The index of the first row carrying the given postcode, if any.
fn find_first_member(rows: &Vec<NodeRecord>, pc: &Option<String>) -> (r: Option<usize>)
    ensures
        match r {
            Some(f) => (f as int) < rows@.len() && records_view(rows@)[f as int].postcode
                == pc.deep_view() && forall|k: int|
                0 <= k < f ==> (#[trigger] records_view(rows@)[k]).postcode != pc.deep_view(),
            None => forall|k: int|
                0 <= k < rows@.len() ==> (#[trigger] records_view(rows@)[k]).postcode
                    != pc.deep_view(),
        },
{
    let ghost all = records_view(rows@);
    let ghost pcv = pc.deep_view();
    let n = rows.len();
    let mut f: usize = 0;
    while f < n
        invariant
            f <= n == rows@.len(),
            all == records_view(rows@),
            pcv == pc.deep_view(),
            forall|k: int| 0 <= k < f ==> (#[trigger] all[k]).postcode != pcv,
        decreases n - f,
    {
        proof {
            assert(all[f as int] == rows@[f as int]@);
        }
        if opt_str_eq(&rows[f].postcode, pc) {
            return Some(f);
        }
        f = f + 1;
    }
    None
}

/// Decides whether the rows sharing the given postcode cover exactly one
/// street.
fn group_unique_street(rows: &Vec<NodeRecord>, pc: &Option<String>) -> (r: bool)
    ensures
        r == streets_agree(records_view(rows@), pc.deep_view()),
{
    let ghost all = records_view(rows@);
    let ghost pcv = pc.deep_view();
    let n = rows.len();
    let found = find_first_member(rows, pc);
    let f: usize = match found {
        Some(f) => f,
        None => {
            // no member at all: vacuously one street
            return true;
        },
    };
    // every member must name the first member's street
    let mut j: usize = 0;
    while j < n
        invariant
            j <= n == rows@.len(),
            f < n,
            all == records_view(rows@),
            pcv == pc.deep_view(),
            all[f as int].postcode == pcv,
            forall|k: int|
                0 <= k < j && (#[trigger] all[k]).postcode == pcv ==> all[k].street == all[f as int].street,
        decreases n - j,
    {
        proof {
            assert(all[j as int] == rows@[j as int]@);
            assert(all[f as int] == rows@[f as int]@);
        }
        if opt_str_eq(&rows[j].postcode, pc) {
            if !opt_str_eq(&rows[j].street, &rows[f].street) {
                proof {
                    assert(all[j as int].postcode == pcv);
                    assert(all[j as int].street != all[f as int].street);
                }
                return false;
            }
        }
        j = j + 1;
    }
    proof {
        assert forall|i: int, k: int|
            0 <= i < all.len() && 0 <= k < all.len() && (#[trigger] all[i]).postcode == pcv && (
            #[trigger] all[k]).postcode == pcv implies all[i].street == all[k].street by {
            assert(all[i].street == all[f as int].street);
            assert(all[k].street == all[f as int].street);
        }
    }
    true
}

/// The size of a postcode group and the sums of its coordinates.
fn group_sums(rows: &Vec<NodeRecord>, pc: &Option<String>) -> (r: (usize, i128, i128))
    ensures
        ({
            let g = group_of(records_view(rows@), pc.deep_view());
            &&& r.0 == g.len()
            &&& r.1 == sum_lat(g)
            &&& r.2 == sum_lon(g)
            &&& -(r.0 as int) * 0x8000_0000_0000_0000 <= r.1 <= (r.0 as int)
                * 0x7FFF_FFFF_FFFF_FFFF
            &&& -(r.0 as int) * 0x8000_0000_0000_0000 <= r.2 <= (r.0 as int)
                * 0x7FFF_FFFF_FFFF_FFFF
        }),
{
    let ghost all = records_view(rows@);
    let ghost pcv = pc.deep_view();
    let n = rows.len();
    let mut count: usize = 0;
    let mut lat_sum: i128 = 0;
    let mut lon_sum: i128 = 0;
    let mut j: usize = 0;
    while j < n
        invariant
            j <= n == rows@.len(),
            all == records_view(rows@),
            pcv == pc.deep_view(),
            count == group_of(all.take(j as int), pcv).len(),
            lat_sum == sum_lat(group_of(all.take(j as int), pcv)),
            lon_sum == sum_lon(group_of(all.take(j as int), pcv)),
            count <= j,
            -(count as int) * 0x8000_0000_0000_0000 <= lat_sum <= (count as int)
                * 0x7FFF_FFFF_FFFF_FFFF,
            -(count as int) * 0x8000_0000_0000_0000 <= lon_sum <= (count as int)
                * 0x7FFF_FFFF_FFFF_FFFF,
        decreases n - j,
    {
        proof {
            assert(all[j as int] == rows@[j as int]@);
            assert(all.take(j as int + 1).drop_last() =~= all.take(j as int));
            assert(all.take(j as int + 1).last() == all[j as int]);
        }
        if opt_str_eq(&rows[j].postcode, pc) {
            proof {
                assert(all[j as int].postcode == pcv);
                assert(all[j as int].lat == rows@[j as int].lat as int);
                assert(all[j as int].lon == rows@[j as int].lon as int);
                let g = group_of(all.take(j as int), pcv);
                assert(group_of(all.take(j as int + 1), pcv) =~= g + seq![all[j as int]]);
                assert((g + seq![all[j as int]]).drop_last() =~= g);
                assert((g + seq![all[j as int]]).last() == all[j as int]);
                assert(sum_lat(g + seq![all[j as int]]) == sum_lat(g) + all[j as int].lat);
                assert(sum_lon(g + seq![all[j as int]]) == sum_lon(g) + all[j as int].lon);
            }
            count = count + 1;
            lat_sum = lat_sum + (rows[j].lat as i128);
            lon_sum = lon_sum + (rows[j].lon as i128);
        } else {
            proof {
                assert(all[j as int].postcode != pcv);
                assert(group_of(all.take(j as int + 1), pcv) =~= group_of(
                    all.take(j as int),
                    pcv,
                ));
            }
        }
        j = j + 1;
    }
    proof {
        assert(all.take(n as int) =~= all);
    }
    (count, lat_sum, lon_sum)
}

/// Integer mean of a sum of `n` coordinates, rounded toward zero.
fn mean_i64(sum: i128, n: usize) -> (r: i64)
    requires
        n >= 1,
        -(n as int) * 0x8000_0000_0000_0000 <= sum <= (n as int) * 0x7FFF_FFFF_FFFF_FFFF,
    ensures
        r as int == mean_toward_zero(sum as int, n as int),
{
    if sum >= 0 {
        let q = (sum as u128) / (n as u128);
        proof {
            lemma_div_is_ordered(sum as int, (n as int) * 0x7FFF_FFFF_FFFF_FFFF, n as int);
            lemma_div_multiples_vanish(0x7FFF_FFFF_FFFF_FFFF, n as int);
        }
        q as i64
    } else {
        let m = -sum;
        let q = (m as u128) / (n as u128);
        proof {
            lemma_div_is_ordered(m as int, (n as int) * 0x8000_0000_0000_0000, n as int);
            lemma_div_multiples_vanish(0x8000_0000_0000_0000, n as int);
        }
        let r = -(q as i128);
        r as i64
    }
}

/// Runs the deduplication pass on the whole store.
pub fn dedup_pass(store: &mut Store)
    requires
        old(store).wf(),
    ensures
        final(store)@ == dedup_spec(old(store)@),
        final(store).wf(),
{
    proof {
        lemma_dedup_wf(old(store)@);
    }
    let ghost all = records_view(old(store).rows@);
    let n = store.rows.len();
    let mut out: Vec<NodeRecord> = Vec::new();
    // ambiguous rows stay, in their original order
    let mut i: usize = 0;
    proof {
        assert(records_view(out@) =~= kept_rows(all, 0));
    }
    while i < n
        invariant
            i <= n == store.rows@.len(),
            *store == *old(store),
            all == records_view(store.rows@),
            records_view(out@) == kept_rows(all, i as int),
        decreases n - i,
    {
        proof {
            assert(all[i as int] == store.rows@[i as int]@);
        }
        if !group_unique_street(&store.rows, &store.rows[i].postcode) {
            let kept = store.rows[i].duplicate();
            out.push(kept);
        }
        proof {
            assert(records_view(out@) =~= kept_rows(all, i as int + 1));
        }
        i = i + 1;
    }
    // one representative per collapsed group, in order of first occurrence
    let mut i: usize = 0;
    while i < n
        invariant
            i <= n == store.rows@.len(),
            *store == *old(store),
            all == records_view(store.rows@),
            records_view(out@) == kept_rows(all, n as int) + rep_rows(all, i as int),
        decreases n - i,
    {
        proof {
            assert(all[i as int] == store.rows@[i as int]@);
        }
        let first = is_first_occurrence(&store.rows, i);
        let agree = group_unique_street(&store.rows, &store.rows[i].postcode);
        if first && agree {
            let ghost pcv = all[i as int].postcode;
            let ghost g = group_of(all, pcv);
            proof {
                lemma_first_in_group(all, i as int);
            }
            let (count, lat_sum, lon_sum) = group_sums(&store.rows, &store.rows[i].postcode);
            let lat = mean_i64(lat_sum, count);
            let lon = mean_i64(lon_sum, count);
            let rep = NodeRecord {
                id: store.rows[i].id,
                lat,
                lon,
                postcode: clone_opt(&store.rows[i].postcode),
                street: clone_opt(&store.rows[i].street),
                city: clone_opt(&store.rows[i].city),
                country: clone_opt(&store.rows[i].country),
                province: clone_opt(&store.rows[i].province),
                state: None,
                house_number: None,
                house_name: None,
                source: clone_opt(&store.rows[i].source),
                source_date: store.rows[i].source_date,
                version: store.rows[i].version,
            };
            proof {
                assert(g[0] == all[i as int]);
                assert(rep@ =~= collapsed(g));
            }
            let ghost before = records_view(out@);
            out.push(rep);
            proof {
                assert(records_view(out@) =~= before.push(collapsed(g)));
                assert(rep_rows(all, i as int + 1) == rep_rows(all, i as int) + seq![
                    collapsed(group_of(all, all[i as int].postcode)),
                ]);
                assert(records_view(out@) =~= kept_rows(all, n as int) + rep_rows(
                    all,
                    i as int + 1,
                ));
            }
        } else {
            proof {
                assert(!(is_first_of_group(all, i as int) && streets_agree(
                    all,
                    all[i as int].postcode,
                )));
                assert(rep_rows(all, i as int + 1) == rep_rows(all, i as int) + Seq::<
                    RecordView,
                >::empty());
                assert(records_view(out@) =~= kept_rows(all, n as int) + rep_rows(
                    all,
                    i as int + 1,
                ));
            }
        }
        i = i + 1;
    }
    store.rows = out;
    proof {
        assert(final(store)@ == kept_rows(all, n as int) + rep_rows(all, n as int));
    }
}

/// The untouched rows keep the schema invariant: they are rows of the
/// original table, no two share an identifier, and each one's postcode group
/// is ambiguous.
proof fn lemma_kept_wf(rows: Seq<RecordView>, n: int)
    requires
        distinct_ids(rows),
        all_ready(rows),
        0 <= n <= rows.len(),
    ensures
        all_ready(kept_rows(rows, n)),
        distinct_ids(kept_rows(rows, n)),
        forall|k: int|
            0 <= k < kept_rows(rows, n).len() ==> exists|j: int|
                0 <= j < n && #[trigger] kept_rows(rows, n)[k] == rows[j] && !streets_agree(
                    rows,
                    rows[j].postcode,
                ),
    decreases n,
{
    if n > 0 {
        lemma_kept_wf(rows, n - 1);
        let prev = kept_rows(rows, n - 1);
        let cur = kept_rows(rows, n);
        assert forall|k: int| 0 <= k < cur.len() implies exists|j: int|
            0 <= j < n && #[trigger] cur[k] == rows[j] && !streets_agree(
                rows,
                rows[j].postcode,
            ) by {
            if k < prev.len() {
                assert(cur[k] == prev[k]);
                let j = choose|j: int|
                    0 <= j < n - 1 && #[trigger] prev[k] == rows[j] && !streets_agree(
                        rows,
                        rows[j].postcode,
                    );
                assert(0 <= j < n && cur[k] == rows[j] && !streets_agree(rows, rows[j].postcode));
            } else {
                assert(cur[k] == rows[n - 1]);
                assert(!streets_agree(rows, rows[n - 1].postcode));
            }
        }
        assert forall|a: int, b: int| 0 <= a < b < cur.len() implies cur[a].id != cur[b].id by {
            let ja = choose|j: int|
                0 <= j < n && #[trigger] cur[a] == rows[j] && !streets_agree(
                    rows,
                    rows[j].postcode,
                );
            let jb = choose|j: int|
                0 <= j < n && #[trigger] cur[b] == rows[j] && !streets_agree(
                    rows,
                    rows[j].postcode,
                );
            if ja == jb {
                if b == cur.len() - 1 && b == prev.len() {
                    // the new element repeats an older row: impossible, the
                    // identifiers of distinct rows differ
                    assert(cur[a] == prev[a]);
                    let j0 = choose|j: int|
                        0 <= j < n - 1 && #[trigger] prev[a] == rows[j] && !streets_agree(
                            rows,
                            rows[j].postcode,
                        );
                    assert(rows[j0].id == rows[n - 1].id);
                    assert(j0 < n - 1);
                } else {
                    assert(cur[a] == prev[a] && cur[b] == prev[b]);
                    assert(prev[a].id != prev[b].id);
                }
            }
        }
        assert forall|k: int| 0 <= k < cur.len() implies ready(#[trigger] cur[k]) by {
            let j = choose|j: int|
                0 <= j < n && #[trigger] cur[k] == rows[j] && !streets_agree(
                    rows,
                    rows[j].postcode,
                );
            assert(ready(rows[j]));
        }
    }
}

/// The representatives keep the schema invariant: each carries the
/// identifier, postcode and street of the first row of a distinct collapsed
/// group.
proof fn lemma_rep_wf(rows: Seq<RecordView>, n: int)
    requires
        distinct_ids(rows),
        all_ready(rows),
        0 <= n <= rows.len(),
    ensures
        all_ready(rep_rows(rows, n)),
        distinct_ids(rep_rows(rows, n)),
        forall|k: int|
            0 <= k < rep_rows(rows, n).len() ==> exists|j: int|
                0 <= j < n && #[trigger] rep_rows(rows, n)[k] == collapsed(
                    group_of(rows, rows[j].postcode),
                ) && is_first_of_group(rows, j) && streets_agree(rows, rows[j].postcode)
                    && rep_rows(rows, n)[k].id == rows[j].id,
    decreases n,
{
    if n > 0 {
        lemma_rep_wf(rows, n - 1);
        let prev = rep_rows(rows, n - 1);
        let cur = rep_rows(rows, n);
        if is_first_of_group(rows, n - 1) && streets_agree(rows, rows[n - 1].postcode) {
            lemma_first_in_group(rows, n - 1);
        }
        assert forall|k: int| 0 <= k < cur.len() implies exists|j: int|
            0 <= j < n && #[trigger] cur[k] == collapsed(group_of(rows, rows[j].postcode))
                && is_first_of_group(rows, j) && streets_agree(rows, rows[j].postcode) && cur[k].id
                == rows[j].id by {
            if k < prev.len() {
                assert(cur[k] == prev[k]);
                let j = choose|j: int|
                    0 <= j < n - 1 && #[trigger] prev[k] == collapsed(
                        group_of(rows, rows[j].postcode),
                    ) && is_first_of_group(rows, j) && streets_agree(rows, rows[j].postcode)
                        && prev[k].id == rows[j].id;
                assert(0 <= j < n && cur[k] == collapsed(group_of(rows, rows[j].postcode))
                    && is_first_of_group(rows, j) && streets_agree(rows, rows[j].postcode)
                    && cur[k].id == rows[j].id);
            } else {
                assert(cur[k] == collapsed(group_of(rows, rows[n - 1].postcode)));
                assert(cur[k].id == rows[n - 1].id);
            }
        }
        assert forall|a: int, b: int| 0 <= a < b < cur.len() implies cur[a].id != cur[b].id by {
            let ja = choose|j: int|
                0 <= j < n && #[trigger] cur[a] == collapsed(group_of(rows, rows[j].postcode))
                    && is_first_of_group(rows, j) && streets_agree(rows, rows[j].postcode)
                    && cur[a].id == rows[j].id;
            let jb = choose|j: int|
                0 <= j < n && #[trigger] cur[b] == collapsed(group_of(rows, rows[j].postcode))
                    && is_first_of_group(rows, j) && streets_agree(rows, rows[j].postcode)
                    && cur[b].id == rows[j].id;
            if ja == jb {
                if b == cur.len() - 1 && b == prev.len() {
                    assert(cur[a] == prev[a]);
                    let j0 = choose|j: int|
                        0 <= j < n - 1 && #[trigger] prev[a] == collapsed(
                            group_of(rows, rows[j].postcode),
                        ) && is_first_of_group(rows, j) && streets_agree(rows, rows[j].postcode)
                            && prev[a].id == rows[j].id;
                    assert(rows[j0].id == rows[ja].id);
                    assert(j0 < n - 1);
                    assert(ja == n - 1);
                } else {
                    assert(cur[a] == prev[a] && cur[b] == prev[b]);
                    assert(prev[a].id != prev[b].id);
                }
            }
        }
        assert forall|k: int| 0 <= k < cur.len() implies ready(#[trigger] cur[k]) by {
            let j = choose|j: int|
                0 <= j < n && #[trigger] cur[k] == collapsed(group_of(rows, rows[j].postcode))
                    && is_first_of_group(rows, j) && streets_agree(rows, rows[j].postcode)
                    && cur[k].id == rows[j].id;
            lemma_first_in_group(rows, j);
            assert(group_of(rows, rows[j].postcode)[0] == rows[j]);
            assert(ready(rows[j]));
        }
    }
}

/// The deduplication pass preserves the schema invariant: the resulting
/// table still holds one ready row per identifier.
pub proof fn lemma_dedup_wf(rows: Seq<RecordView>)
    requires
        distinct_ids(rows),
        all_ready(rows),
    ensures
        distinct_ids(dedup_spec(rows)),
        all_ready(dedup_spec(rows)),
{
    let n = rows.len() as int;
    let kept = kept_rows(rows, n);
    let reps = rep_rows(rows, n);
    let out = dedup_spec(rows);
    lemma_kept_wf(rows, n);
    lemma_rep_wf(rows, n);
    assert forall|a: int, b: int| 0 <= a < b < out.len() implies out[a].id != out[b].id by {
        if a < kept.len() && b < kept.len() {
            assert(out[a] == kept[a] && out[b] == kept[b]);
        } else if a >= kept.len() && b >= kept.len() {
            assert(out[a] == reps[a - kept.len()] && out[b] == reps[b - kept.len()]);
        } else {
            // one kept row, one representative: they cannot come from the
            // same original row, whose group would have to be both
            // ambiguous and unambiguous
            assert(out[a] == kept[a]);
            assert(out[b] == reps[b - kept.len()]);
            let ja = choose|j: int|
                0 <= j < n && #[trigger] kept[a] == rows[j] && !streets_agree(
                    rows,
                    rows[j].postcode,
                );
            let jb = choose|j: int|
                0 <= j < n && #[trigger] reps[b - kept.len()] == collapsed(
                    group_of(rows, rows[j].postcode),
                ) && is_first_of_group(rows, j) && streets_agree(rows, rows[j].postcode) && reps[b
                    - kept.len()].id == rows[j].id;
            if ja == jb {
            } else {
                assert(rows[ja].id != rows[jb].id);
            }
        }
    }
    assert forall|k: int| 0 <= k < out.len() implies ready(#[trigger] out[k]) by {
        if k < kept.len() {
            assert(out[k] == kept[k]);
        } else {
            assert(out[k] == reps[k - kept.len()]);
        }
    }
}

/// The first row of a postcode group is the first row carrying that
/// postcode.
proof fn lemma_first_in_group(rows: Seq<RecordView>, i: int)
    requires
        0 <= i < rows.len(),
        is_first_of_group(rows, i),
    ensures
        group_of(rows, rows[i].postcode).len() > 0,
        group_of(rows, rows[i].postcode)[0] == rows[i],
{
    let pc = rows[i].postcode;
    lemma_group_empty(rows, pc, i);
    assert(rows.take(i + 1).drop_last() =~= rows.take(i));
    assert(rows.take(i + 1).last() == rows[i]);
    assert(group_of(rows.take(i + 1), pc) =~= seq![rows[i]]);
    lemma_group_prefix(rows, pc, i + 1);
    assert(group_of(rows, pc)[0] == group_of(rows.take(i + 1), pc)[0]);
}

/// A prefix without matches contributes an empty group.
proof fn lemma_group_empty(rows: Seq<RecordView>, pc: Option<Seq<char>>, k: int)
    requires
        0 <= k <= rows.len(),
        forall|j: int| 0 <= j < k ==> (#[trigger] rows[j]).postcode != pc,
    ensures
        group_of(rows.take(k), pc).len() == 0,
    decreases k,
{
    if k > 0 {
        assert(rows.take(k).drop_last() =~= rows.take(k - 1));
        assert(rows.take(k).last() == rows[k - 1]);
        lemma_group_empty(rows, pc, k - 1);
    } else {
        assert(rows.take(0) =~= Seq::<RecordView>::empty());
    }
}

/// A prefix's group is a prefix of the whole group.
proof fn lemma_group_prefix(rows: Seq<RecordView>, pc: Option<Seq<char>>, k: int)
    requires
        0 <= k <= rows.len(),
    ensures
        group_of(rows.take(k), pc).len() <= group_of(rows, pc).len(),
        forall|m: int|
            0 <= m < group_of(rows.take(k), pc).len() ==> #[trigger] group_of(rows, pc)[m]
                == group_of(rows.take(k), pc)[m],
    decreases rows.len(),
{
    if k == rows.len() {
        assert(rows.take(k) =~= rows);
    } else {
        assert(rows.drop_last().take(k) =~= rows.take(k));
        lemma_group_prefix(rows.drop_last(), pc, k);
    }
}

} // verus!
