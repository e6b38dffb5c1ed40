//! The Kimai REST paths the admin CLI calls: the collection of each entity
//! kind, one entity by id, and the listing with its fixed sort and optional
//! filter. The requests themselves are made outside the library.

use vstd::prelude::*;
use crate::text::{decimal, decimal_string};

verus! {

/// The kinds of Kimai entities the admin CLI manages.
pub enum Entity {
    Customers,
    Projects,
    Activities,
}

/// The path segment of an entity kind.
pub open spec fn entity_name(e: Entity) -> Seq<char> {
    match e {
        Entity::Customers => "customers"@,
        Entity::Projects => "projects"@,
        Entity::Activities => "activities"@,
    }
}

/// The query key a listing of this kind is filtered by: projects by
/// customer, activities by project; customers are not filtered.
pub open spec fn filter_key(e: Entity) -> Option<Seq<char>> {
    match e {
        Entity::Customers => None,
        Entity::Projects => Some("customer"@),
        Entity::Activities => Some("project"@),
    }
}

fn entity_str(e: &Entity) -> (r: &'static str)
    ensures
        r@ == entity_name(*e),
{
    proof {
        reveal_strlit("customers");
        reveal_strlit("projects");
        reveal_strlit("activities");
    }
    match e {
        Entity::Customers => "customers",
        Entity::Projects => "projects",
        Entity::Activities => "activities",
    }
}

/// `{base}/api/{entity}`: where entities are created.
pub fn collection_url(base: &str, e: &Entity) -> (r: String)
    ensures
        r@ == base@ + "/api/"@ + entity_name(*e),
{
    let mut s = String::from_str(base);
    s.append("/api/");
    s.append(entity_str(e));
    s
}

/// `{base}/api/{entity}/{id}`: where one entity is read or deleted.
pub fn item_url(base: &str, e: &Entity, id: u32) -> (r: String)
    ensures
        r@ == base@ + "/api/"@ + entity_name(*e) + "/"@ + decimal(id as nat),
{
    let mut s = collection_url(base, e);
    s.append("/");
    let n = decimal_string(id as u64);
    s.append(n.as_str());
    s
}

/// The listing URL: visible entities ordered by name ascending, filtered by
/// `filter` under the kind's filter key when it has one.
pub open spec fn listing_text(base: Seq<char>, e: Entity, filter: Option<u32>) -> Seq<char> {
    base + "/api/"@ + entity_name(e) + "?visible=1&order=ASC&orderBy=name"@ + match (filter_key(e), filter) {
        (Some(k), Some(id)) => "&"@ + k + "="@ + decimal(id as nat),
        _ => Seq::<char>::empty(),
    }
}

pub fn listing_url(base: &str, e: &Entity, filter: Option<u32>) -> (r: String)
    ensures
        r@ == listing_text(base@, *e, filter),
{
    let mut s = collection_url(base, e);
    s.append("?visible=1&order=ASC&orderBy=name");
    let key: Option<&str> = match e {
        Entity::Customers => None,
        Entity::Projects => Some("customer"),
        Entity::Activities => Some("project"),
    };
    proof {
        reveal_strlit("customer");
        reveal_strlit("project");
    }
    match (key, filter) {
        (Some(k), Some(id)) => {
            s.append("&");
            s.append(k);
            s.append("=");
            let n = decimal_string(id as u64);
            s.append(n.as_str());
        },
        _ => {},
    }
    assert(s@ =~= listing_text(base@, *e, filter));
    s
}

} // verus!
