use vstd::prelude::*;

verus! {

/// The first column whose header is `name`.
pub fn find_column(headers: &Vec<String>, name: &String) -> (r: Option<usize>)
    ensures
        r is None <==> forall|i: int| 0 <= i < headers@.len() ==> #[trigger] headers@[i]@ != name@,
        r matches Some(i) ==> i < headers@.len() && headers@[i as int]@ == name@ && forall|j: int|
            0 <= j < i ==> #[trigger] headers@[j]@ != name@,
{
    let mut i: usize = 0;
    while i < headers.len()
        invariant
            i <= headers@.len(),
            forall|j: int| 0 <= j < i ==> #[trigger] headers@[j]@ != name@,
        decreases headers@.len() - i,
    {
        if headers[i] == *name {
            return Some(i);
        }
        i = i + 1;
    }
    None
}

/// A column holds a feature: it is neither of the two given columns and its
/// header is not `skip`.
pub open spec fn is_feature_column(headers: Seq<String>, name_col: nat, group_col: nat, skip: Seq<char>, i: int) -> bool {
    i != name_col && i != group_col && headers[i]@ != skip
}

/// The feature columns, in order: all but the identifier column `name_col`,
/// the group column `group_col`, and those headed `skip`.
pub fn feature_columns(headers: &Vec<String>, name_col: usize, group_col: usize, skip: &String) -> (r: Vec<usize>)
    ensures
        forall|k: int| 0 <= k < r@.len() ==> (#[trigger] r@[k]) < headers@.len() && is_feature_column(
            headers@, name_col as nat, group_col as nat, skip@, r@[k] as int),
        forall|k1: int, k2: int| 0 <= k1 < k2 < r@.len() ==> #[trigger] r@[k1] < #[trigger] r@[k2],
        forall|i: int| 0 <= i < headers@.len() && is_feature_column(headers@, name_col as nat, group_col as nat, skip@, i)
            ==> r@.contains(i as usize),
{
    let mut r: Vec<usize> = Vec::new();
    let mut i: usize = 0;
    while i < headers.len()
        invariant
            i <= headers@.len(),
            forall|k: int| 0 <= k < r@.len() ==> (#[trigger] r@[k]) < i && is_feature_column(
                headers@, name_col as nat, group_col as nat, skip@, r@[k] as int),
            forall|k1: int, k2: int| 0 <= k1 < k2 < r@.len() ==> #[trigger] r@[k1] < #[trigger] r@[k2],
            forall|j: int| 0 <= j < i && is_feature_column(headers@, name_col as nat, group_col as nat, skip@, j)
                ==> r@.contains(j as usize),
        decreases headers@.len() - i,
    {
        let ghost r0 = r@;
        if i != name_col && i != group_col && !(headers[i] == *skip) {
            r.push(i);
            assert(r@[r@.len() - 1] == i);
        }
        assert forall|j: int| 0 <= j < i + 1 && is_feature_column(headers@, name_col as nat, group_col as nat, skip@, j)
            implies r@.contains(j as usize) by {
            if j < i {
                assert(r0.contains(j as usize));
                let k = choose|k: int| 0 <= k < r0.len() && r0[k] == j as usize;
                assert(r@[k] == j as usize);
            } else {
                assert(r@[r@.len() - 1] == j as usize);
            }
        }
        i = i + 1;
    }
    r
}

} // verus!
