use vstd::prelude::*;
use crate::node::{BencodeAny, BencodeDict, BencodeList};

verus! {

/// Looking up an item of a list twice gives the same answer both times,
/// whatever the handle has remembered in between.
pub proof fn lemma_list_get_is_pure<'a, 't>(
    list: &BencodeList<'a, 't>,
    index: usize,
    first: Option<BencodeAny<'a, 't>>,
    second: Option<BencodeAny<'a, 't>>,
)
    requires
        call_ensures(BencodeList::<'a, 't>::get, (list, index), first),
        call_ensures(BencodeList::<'a, 't>::get, (list, index), second),
    ensures
        first.is_some() == second.is_some(),
        first.is_some() ==> first.unwrap()@ == second.unwrap()@ && first.unwrap().index()
            == second.unwrap().index(),
{
}

/// Asking for the length of a list twice gives the same number both times.
pub proof fn lemma_list_len_is_pure<'a, 't>(list: &BencodeList<'a, 't>, first: usize, second: usize)
    requires
        call_ensures(BencodeList::<'a, 't>::len, (list,), first),
        call_ensures(BencodeList::<'a, 't>::len, (list,), second),
    ensures
        first == second,
{
}

/// Looking up an entry of a dictionary twice gives the same answer both
/// times, whatever the handle has remembered in between.
pub proof fn lemma_dict_get_is_pure<'a, 't>(
    dict: &BencodeDict<'a, 't>,
    index: usize,
    first: Option<(&'a [u8], BencodeAny<'a, 't>)>,
    second: Option<(&'a [u8], BencodeAny<'a, 't>)>,
)
    requires
        call_ensures(BencodeDict::<'a, 't>::get, (dict, index), first),
        call_ensures(BencodeDict::<'a, 't>::get, (dict, index), second),
    ensures
        first.is_some() == second.is_some(),
        first.is_some() ==> first.unwrap().0@ == second.unwrap().0@ && first.unwrap().1@
            == second.unwrap().1@ && first.unwrap().1.index() == second.unwrap().1.index(),
{
}

/// Asking for the length of a dictionary twice gives the same number both
/// times.
pub proof fn lemma_dict_len_is_pure<'a, 't>(dict: &BencodeDict<'a, 't>, first: usize, second: usize)
    requires
        call_ensures(BencodeDict::<'a, 't>::len, (dict,), first),
        call_ensures(BencodeDict::<'a, 't>::len, (dict,), second),
    ensures
        first == second,
{
}

/// Searching a dictionary for a key twice gives the same answer both
/// times.
pub proof fn lemma_dict_find_is_pure<'a, 't>(
    dict: &BencodeDict<'a, 't>,
    key: &[u8],
    first: Option<BencodeAny<'a, 't>>,
    second: Option<BencodeAny<'a, 't>>,
)
    requires
        call_ensures(BencodeDict::<'a, 't>::find, (dict, key), first),
        call_ensures(BencodeDict::<'a, 't>::find, (dict, key), second),
    ensures
        first.is_some() == second.is_some(),
        first.is_some() ==> first.unwrap()@ == second.unwrap()@ && first.unwrap().index()
            == second.unwrap().index(),
{
}

/// A lookup between two questions for the length does not change the
/// length: the length of a list is the same before and after any lookup.
pub proof fn lemma_list_len_survives_get<'a, 't>(
    list: &BencodeList<'a, 't>,
    before: usize,
    index: usize,
    found: Option<BencodeAny<'a, 't>>,
    after: usize,
)
    requires
        call_ensures(BencodeList::<'a, 't>::len, (list,), before),
        call_ensures(BencodeList::<'a, 't>::get, (list, index), found),
        call_ensures(BencodeList::<'a, 't>::len, (list,), after),
    ensures
        before == after,
        found.is_some() <==> index < before,
{
}

/// The length of a dictionary is the same before and after any lookup.
pub proof fn lemma_dict_len_survives_get<'a, 't>(
    dict: &BencodeDict<'a, 't>,
    before: usize,
    index: usize,
    found: Option<(&'a [u8], BencodeAny<'a, 't>)>,
    after: usize,
)
    requires
        call_ensures(BencodeDict::<'a, 't>::len, (dict,), before),
        call_ensures(BencodeDict::<'a, 't>::get, (dict, index), found),
        call_ensures(BencodeDict::<'a, 't>::len, (dict,), after),
    ensures
        before == after,
        found.is_some() <==> index < before,
{
}

} // verus!
