use vstd::prelude::*;

use crate::api::{get_user_from_token, lookup_error, token_corrupt, token_owner};
use crate::api::user::lists_all_users;
use crate::database::key_value::OrderedTable;
use crate::database::Database;
use crate::utility::error::{Error, Result};

verus! {

pub struct Response {
    pub users: Vec<String>,
}

/// `names` are `all` without `user`, in the same order.
pub open spec fn without_user(all: Seq<String>, user: Seq<char>, names: Seq<String>) -> bool {
    names.map_values(|n: String| n@) == all.map_values(|n: String| n@).filter(
        |n: Seq<char>| n != user,
    )
}

/// All registered users but the signed-in one.
pub fn get_users<T: OrderedTable>(db: &Database<T>, token: String) -> (r: Result<Response>)
    requires
        token_owner(db.token_user.contents(), token@) is Some ==> db.names_readable(),
    ensures
        ({
            let tu = db.token_user.contents();
            &&& db.infallible() && !token_corrupt(tu, token@) ==> (r is Ok
                || r == Err::<Response, Error>(Error::BadRequest("Wrong token.")))
            &&& match r {
                Ok(resp) => token_owner(tu, token@) matches Some(u) && exists|all: Seq<String>|
                    #[trigger] lists_all_users(db, all) && without_user(all, u, resp.users@),
                Err(Error::BadRequest(msg)) => token_owner(tu, token@) is None && !token_corrupt(
                    tu,
                    token@,
                ) && msg == "Wrong token.",
                Err(e) => lookup_error(tu, token@, e),
            }
        }),
{
    let user = get_user_from_token(db, token)?;
    let all = db.users()?;
    let ghost av = all@.map_values(|n: String| n@);
    let mut users: Vec<String> = Vec::new();
    let mut i: usize = 0;
    while i < all.len()
        invariant
            i <= all@.len(),
            av == all@.map_values(|n: String| n@),
            users@.map_values(|n: String| n@) == av.take(i as int).filter(
                |n: Seq<char>| n != user@,
            ),
        decreases all.len() - i,
    {
        let name = all[i].clone();
        let ghost before = users@;
        proof {
            assert(av.take(i + 1).drop_last() =~= av.take(i as int));
            reveal_with_fuel(Seq::<_>::filter, 1);
        }
        if name != user {
            users.push(name);
            proof {
                assert(users@.map_values(|n: String| n@) =~= before.map_values(|n: String| n@).push(
                    av[i as int],
                ));
            }
        } else {
            proof {
                assert(users@ == before);
            }
        }
        i = i + 1;
    }
    proof {
        assert(av.take(i as int) =~= av);
        assert(lists_all_users(db, all@));
    }
    Ok(Response { users })
}

} // verus!
