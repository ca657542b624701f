use crate::key::{key_model_ok, Serializable};
use crate::segment::AppendEntryResponse;
use vstd::hash_map::HashMapWithView;
use vstd::prelude::*;

verus! {

/// The in-memory index from each live key to the location of its most
/// recent entry. Its view maps the keys' views to locations.
#[verifier::reject_recursive_types(T)]
pub struct KeyDirectory<T: Serializable> {
    entry_by_key: HashMapWithView<T, AppendEntryResponse>,
}

impl<T: Serializable> View for KeyDirectory<T> {
    type V = Map<T::V, AppendEntryResponse>;

    open spec fn view(&self) -> Map<T::V, AppendEntryResponse> {
        self.spec_map()
    }
}

impl<T: Serializable> KeyDirectory<T> {
    pub closed spec fn spec_map(&self) -> Map<T::V, AppendEntryResponse> {
        self.entry_by_key@
    }

    /// An empty directory. Hashing and equality of the key type must agree
    /// with its view.
    pub fn new() -> (r: KeyDirectory<T>)
        requires
            key_model_ok::<T>(),
        ensures
            r@ == Map::<T::V, AppendEntryResponse>::empty(),
    {
        KeyDirectory { entry_by_key: HashMapWithView::new() }
    }

    /// Points `key` at `value`, replacing what it pointed at before.
    pub fn put(&mut self, key: T, value: AppendEntryResponse)
        ensures
            final(self)@ == old(self)@.insert(key@, value),
    {
        self.entry_by_key.insert(key, value);
    }

    /// Where the latest entry of `key` stands, if the key is live.
    pub fn get(&self, key: T) -> (r: Option<&AppendEntryResponse>)
        ensures
            r is Some <==> self@.contains_key(key@),
            r is Some ==> *r.unwrap() == self@[key@],
    {
        self.entry_by_key.get(&key)
    }

    /// Drops `key`, returning where it pointed, if anywhere.
    pub fn remove(&mut self, key: T) -> (r: Option<AppendEntryResponse>)
        ensures
            final(self)@ == old(self)@.remove(key@),
            r is Some <==> old(self)@.contains_key(key@),
            r is Some ==> r.unwrap() == old(self)@[key@],
    {
        let r = self.entry_by_key.remove(&key);
        proof {
            if r is None {
                assert(final(self)@ =~= old(self)@.remove(key@));
            }
        }
        r
    }

}

} // verus!
