//! Identifiers: fresh ids for agents and presets, the renaming of agent ids
//! in the connections of a preset being loaded, and the preset-scoped names
//! of board variables and local channels.

use vstd::prelude::*;
use crate::connections::ConnectionSpec;
use crate::text::{concat3, int_decimal, str_eq, usize_to_string};

verus! {

/// The id handed out for the counter value `n`: its decimal form.
pub fn new_id(n: usize) -> (r: String)
    ensures
        r@ == int_decimal(n as int),
{
    usize_to_string(n)
}

/// The new id of `id` when the agents with ids `olds` were given the ids
/// `news` (position by position): the last agent with that id decides, and
/// an id of no agent stays as it is.
pub open spec fn renamed(olds: Seq<Seq<char>>, news: Seq<Seq<char>>, id: Seq<char>) -> Seq<char>
    decreases olds.len(),
{
    if olds.len() == 0 || news.len() == 0 {
        id
    } else if olds.last() == id {
        news.last()
    } else {
        renamed(olds.drop_last(), news.drop_last(), id)
    }
}

/// The characters of each string.
pub open spec fn ids_view(v: Seq<String>) -> Seq<Seq<char>> {
    v.map_values(|s: String| s@)
}

/// The new id of one agent id.
fn rename_id(olds: &Vec<String>, news: &Vec<String>, id: &str) -> (r: String)
    requires
        olds@.len() == news@.len(),
    ensures
        r@ == renamed(ids_view(olds@), ids_view(news@), id@),
{
    let mut j = olds.len();
    assert(ids_view(olds@).take(j as int) =~= ids_view(olds@));
    assert(ids_view(news@).take(j as int) =~= ids_view(news@));
    while j > 0
        invariant
            j <= olds@.len() == news@.len(),
            renamed(ids_view(olds@), ids_view(news@), id@) == renamed(
                ids_view(olds@).take(j as int),
                ids_view(news@).take(j as int),
                id@,
            ),
        decreases j,
    {
        assert(ids_view(olds@).take(j as int).last() == olds@[j - 1]@);
        assert(ids_view(news@).take(j as int).last() == news@[j - 1]@);
        if str_eq(olds[j - 1].as_str(), id) {
            return news[j - 1].clone();
        }
        assert(ids_view(olds@).take(j as int).drop_last() =~= ids_view(olds@).take(j - 1));
        assert(ids_view(news@).take(j as int).drop_last() =~= ids_view(news@).take(j - 1));
        j = j - 1;
    }
    id.to_owned()
}

/// The connections of a preset whose agents got fresh ids: `olds[i]` is
/// now `news[i]`, and each connection's source and target are renamed
/// accordingly (handles unchanged; ids of no agent kept).
pub fn remap_connections(olds: &Vec<String>, news: &Vec<String>, connections: &Vec<ConnectionSpec>) -> (r:
    Vec<ConnectionSpec>)
    requires
        olds@.len() == news@.len(),
    ensures
        r@.len() == connections@.len(),
        forall|i: int|
            0 <= i < r@.len() ==> {
                let c = connections@[i];
                let d = #[trigger] r@[i];
                &&& d.source@ == renamed(ids_view(olds@), ids_view(news@), c.source@)
                &&& d.target@ == renamed(ids_view(olds@), ids_view(news@), c.target@)
                &&& d.source_handle@ == c.source_handle@
                &&& d.target_handle@ == c.target_handle@
            },
{
    let mut out: Vec<ConnectionSpec> = Vec::new();
    let mut i: usize = 0;
    while i < connections.len()
        invariant
            i <= connections@.len(),
            olds@.len() == news@.len(),
            out@.len() == i,
            forall|k: int|
                0 <= k < i ==> {
                    let c = connections@[k];
                    let d = #[trigger] out@[k];
                    &&& d.source@ == renamed(ids_view(olds@), ids_view(news@), c.source@)
                    &&& d.target@ == renamed(ids_view(olds@), ids_view(news@), c.target@)
                    &&& d.source_handle@ == c.source_handle@
                    &&& d.target_handle@ == c.target_handle@
                },
        decreases connections@.len() - i,
    {
        let c = &connections[i];
        let d = ConnectionSpec {
            source: rename_id(olds, news, c.source.as_str()),
            source_handle: c.source_handle.clone(),
            target: rename_id(olds, news, c.target.as_str()),
            target_handle: c.target_handle.clone(),
        };
        out.push(d);
        i = i + 1;
    }
    out
}

/// The name `%{scope}/{name}` of a preset-scoped board variable or local
/// channel.
pub open spec fn scoped_name(scope: Seq<char>, name: Seq<char>) -> Seq<char> {
    "%"@ + scope + "/"@ + name
}

/// The board name of the variable `var_name` of the flow `flow_id`.
pub fn board_name_for_var(flow_id: &str, var_name: &str) -> (r: String)
    ensures
        r@ == scoped_name(flow_id@, var_name@),
{
    let mut r = concat3("%", flow_id, "/");
    r.append(var_name);
    r
}

/// The channel name of the local variable `var_name` of the flow `flow_id`.
pub fn channel_name_for_local(flow_id: &str, var_name: &str) -> (r: String)
    ensures
        r@ == scoped_name(flow_id@, var_name@),
{
    let mut r = concat3("%", flow_id, "/");
    r.append(var_name);
    r
}

} // verus!
