use vstd::prelude::*;

verus! {

/// The sum of the first `n` counts.
pub open spec fn count_sum(counts: Seq<i32>, n: int) -> int
    decreases n,
{
    if n <= 0 {
        0
    } else {
        count_sum(counts, n - 1) + counts[n - 1]
    }
}

/// Later prefixes of non-negative counts sum to at least as much.
proof fn lemma_count_sum_grows(counts: Seq<i32>, a: int, b: int)
    requires
        0 <= a <= b <= counts.len(),
        forall|i: int| 0 <= i < counts.len() ==> #[trigger] counts[i] >= 0,
    ensures
        count_sum(counts, a) <= count_sum(counts, b),
    decreases b - a,
{
    if a < b {
        lemma_count_sum_grows(counts, a, b - 1);
    }
}

/// The concrete inputs of a symbolic state, as the plugin hands them over:
/// the names, how many bytes belong to each, and all the bytes one after
/// the other, split into one `(name, bytes)` pair per name. The counts are
/// not negative, and all of them together account for every byte.
pub fn split_concrete_inputs(names: &[String], byte_counts: &[i32], bytes: &[u8]) -> (inputs: Vec<(String, Vec<u8>)>)
    requires
        names@.len() <= byte_counts@.len(),
        forall|i: int| 0 <= i < byte_counts@.len() ==> #[trigger] byte_counts@[i] >= 0,
        count_sum(byte_counts@, byte_counts@.len() as int) == bytes@.len(),
    ensures
        inputs@.len() == names@.len(),
        forall|i: int|
            0 <= i < names@.len() ==> (#[trigger] inputs@[i]).0@ == names@[i]@ && inputs@[i].1@ == bytes@.subrange(
                count_sum(byte_counts@, i),
                count_sum(byte_counts@, i + 1),
            ),
{
    let n = bytes.len();
    let mut concrete_inputs: Vec<(String, Vec<u8>)> = Vec::new();
    let mut byte_index: usize = 0;
    let mut i: usize = 0;
    while i < names.len()
        invariant
            names@.len() <= byte_counts@.len(),
            forall|j: int| 0 <= j < byte_counts@.len() ==> #[trigger] byte_counts@[j] >= 0,
            count_sum(byte_counts@, byte_counts@.len() as int) == bytes@.len(),
            n == bytes@.len(),
            0 <= i <= names@.len(),
            byte_index == count_sum(byte_counts@, i as int),
            concrete_inputs@.len() == i,
            forall|j: int|
                0 <= j < i ==> (#[trigger] concrete_inputs@[j]).0@ == names@[j]@ && concrete_inputs@[j].1@
                    == bytes@.subrange(count_sum(byte_counts@, j), count_sum(byte_counts@, j + 1)),
        decreases names@.len() - i,
    {
        let byte_count = byte_counts[i] as usize;
        proof {
            lemma_count_sum_grows(byte_counts@, i + 1, byte_counts@.len() as int);
        }
        let mut this_bytes: Vec<u8> = Vec::new();
        let mut k: usize = 0;
        while k < byte_count
            invariant
                byte_index + byte_count <= bytes@.len(),
                n == bytes@.len(),
                0 <= k <= byte_count,
                this_bytes@ == bytes@.subrange(byte_index as int, byte_index + k),
            decreases byte_count - k,
        {
            this_bytes.push(bytes[byte_index + k]);
            k = k + 1;
            proof {
                assert(this_bytes@ =~= bytes@.subrange(byte_index as int, byte_index + k));
            }
        }
        concrete_inputs.push((names[i].clone(), this_bytes));
        byte_index = byte_index + byte_count;
        i = i + 1;
    }
    concrete_inputs
}

} // verus!
