//! Totals over maps, and arithmetic that stays within a machine word.
use vstd::prelude::*;

verus! {

/// `n` reduced to what a `usize` can hold.
pub open spec fn wrapped(n: nat) -> nat {
    n % ((usize::MAX + 1) as nat)
}

/// The sum of two words, wrapped.
pub fn sum_words(a: usize, b: usize) -> (sum: usize)
    ensures
        sum == wrapped(a as nat + b as nat),
{
    proof {
        let m = usize::MAX + 1;
        if a + b > usize::MAX {
            vstd::arithmetic::div_mod::lemma_fundamental_div_mod_converse(
                a + b,
                m,
                1,
                a + b - m,
            );
        } else {
            vstd::arithmetic::div_mod::lemma_small_mod(a as nat + b as nat, m as nat);
        }
    }
    a.wrapping_add(b)
}

/// `n`, or the largest `usize` where `n` is above it.
pub open spec fn capped(n: nat) -> nat {
    if n <= usize::MAX {
        n
    } else {
        usize::MAX as nat
    }
}

/// The sum of two words, or the largest word where it is above that.
pub fn add_capped(a: usize, b: usize) -> (sum: usize)
    ensures
        sum == capped(a as nat + b as nat),
{
    match a.checked_add(b) {
        Some(sum) => sum,
        None => usize::MAX,
    }
}

/// The product of two words, or the largest word where it is above that.
pub fn scale_capped(a: usize, factor: usize) -> (product: usize)
    ensures
        product == capped(a as nat * factor as nat),
{
    match a.checked_mul(factor) {
        Some(product) => product,
        None => usize::MAX,
    }
}

/// The width of a machine word in bytes.
pub open spec fn word_size() -> nat {
    (usize::BITS / 8) as nat
}

/// The width of a machine word in bytes.
pub fn word_bytes() -> (bytes: usize)
    ensures
        bytes == word_size(),
        bytes == 4 || bytes == 8,
{
    (usize::BITS / 8) as usize
}

/// Walking a list without repetitions reaches one new key with each step.
pub proof fn walk_step(keys: Seq<u128>, i: int)
    requires
        keys.no_duplicates(),
        0 <= i < keys.len(),
    ensures
        keys.take(i).to_set().finite(),
        !keys.take(i).to_set().contains(keys[i]),
        keys.take(i + 1).to_set() == keys.take(i).to_set().insert(keys[i]),
        keys.to_set().contains(keys[i]),
{
    let before = keys.take(i);
    let after = keys.take(i + 1);
    vstd::seq_lib::seq_to_set_is_finite(before);
    assert forall|key: u128| after.contains(key) implies before.contains(key) || key
        == keys[i] by {
        let at = after.index_of(key);
        if at < i {
            assert(before[at] == key);
        }
    }
    assert forall|key: u128| before.contains(key) || key == keys[i] implies after.contains(
        key,
    ) by {
        if before.contains(key) {
            let at = before.index_of(key);
            assert(after[at] == key);
        } else {
            assert(after[i] == key);
        }
    }
    assert(after.to_set() =~= before.to_set().insert(keys[i]));
}

/// The sum of the values of a map.
pub open spec fn map_sum<K>(map: Map<K, nat>) -> nat
    decreases map.dom().len(),
{
    if map.dom().finite() && map.dom().len() > 0 {
        let key = map.dom().choose();
        map[key] + map_sum(map.remove(key))
    } else {
        0
    }
}

/// A sum is made of any one value and the sum of the others.
pub proof fn map_sum_remove<K>(map: Map<K, nat>, key: K)
    requires
        map.dom().finite(),
        map.contains_key(key),
    ensures
        map_sum(map) == map[key] + map_sum(map.remove(key)),
    decreases map.dom().len(),
{
    let chosen = map.dom().choose();
    if chosen != key {
        map_sum_remove(map.remove(chosen), key);
        map_sum_remove(map.remove(key), chosen);
        assert(map.remove(chosen).remove(key) =~= map.remove(key).remove(chosen));
    }
}

/// A sum is no smaller where no value is.
pub proof fn map_sum_grows<K>(map: Map<K, nat>, larger: Map<K, nat>)
    requires
        larger.dom() == map.dom(),
        forall|key: K| #[trigger] map.contains_key(key) ==> map[key] <= larger[key],
    ensures
        map_sum(map) <= map_sum(larger),
    decreases map.dom().len(),
{
    if map.dom().finite() && map.dom().len() > 0 {
        let key = map.dom().choose();
        assert(map.contains_key(key));
        assert(larger.remove(key).dom() =~= map.remove(key).dom());
        map_sum_grows(map.remove(key), larger.remove(key));
    }
}

/// Adding an entry adds its value.
pub proof fn map_sum_insert<K>(map: Map<K, nat>, key: K, value: nat)
    requires
        map.dom().finite(),
        !map.contains_key(key),
    ensures
        map_sum(map.insert(key, value)) == map_sum(map) + value,
{
    map_sum_remove(map.insert(key, value), key);
    assert(map.insert(key, value).remove(key) =~= map);
}

} // verus!
