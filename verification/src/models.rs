//! The plain-text response bodies of the publisher endpoints.
//!
//! The HTTP layer only wraps these strings; their exact shape is part of
//! the publisher protocol, so it is pinned here.

use vstd::prelude::*;
use vstd::string::StringExecFns;

use crate::state::SessionId;

verus! {

/// The canonical share-id string handed back to the creating client.
#[derive(Debug)]
pub struct ShareId(pub String);

impl View for ShareId {
    type V = Seq<char>;

    open spec fn view(&self) -> Seq<char> {
        self.0@
    }
}

/// What the create endpoint answers: four lines, `OK`, the session id,
/// the share link and the share id.
#[derive(Debug)]
pub struct CreateResponse {
    pub status: String,
    pub session_id: SessionId,
    pub share_link: String,
    pub share_id: ShareId,
}

impl CreateResponse {
    /// The four-line text body.
    pub fn to_client(&self) -> (r: String)
        ensures
            r@ == self.status@ + "\n"@ + self.session_id@ + "\n"@ + self.share_link@ + "\n"@
                + self.share_id@ + "\n"@,
    {
        let mut out = String::new();
        out.append(self.status.as_str());
        out.append("\n");
        out.append(self.session_id.0.as_str());
        out.append("\n");
        out.append(self.share_link.as_str());
        out.append("\n");
        out.append(self.share_id.0.as_str());
        out.append("\n");
        out
    }
}

/// What the stop endpoint answers.
#[derive(Debug)]
pub struct StopResponse {}

impl StopResponse {
    /// The one-line acknowledgement.
    pub fn to_client(&self) -> (r: String)
        ensures
            r@ == "OK\n"@,
    {
        String::from_str("OK\n")
    }
}

/// Strings joined by commas, in order.
pub open spec fn join_comma(items: Seq<Seq<char>>) -> Seq<char>
    decreases items.len(),
{
    if items.len() == 0 {
        Seq::empty()
    } else if items.len() == 1 {
        items[0]
    } else {
        join_comma(items.drop_last()) + seq![','] + items.last()
    }
}

/// What the post endpoint answers: an acknowledgement and the public URL
/// with the target ids.
#[derive(Debug)]
pub struct PostResponse {
    pub public_url: String,
    pub target_ids: Vec<String>,
}

impl PostResponse {
    /// The text body: `OK`, then the URL, a question mark and the ids.
    pub fn to_client(&self) -> (r: String)
        ensures
            r@ == "OK\n"@ + self.public_url@ + "?"@ + join_comma(
                self.target_ids@.map_values(|s: String| s@),
            ) + "\n"@,
    {
        let ghost ids = self.target_ids@.map_values(|s: String| s@);
        let mut out = String::from_str("OK\n");
        out.append(self.public_url.as_str());
        out.append("?");
        let n = self.target_ids.len();
        let mut i: usize = 0;
        let ghost head = "OK\n"@ + self.public_url@ + "?"@;
        while i < n
            invariant
                0 <= i <= n,
                n == self.target_ids@.len(),
                ids == self.target_ids@.map_values(|s: String| s@),
                head == "OK\n"@ + self.public_url@ + "?"@,
                out@ == head + join_comma(ids.subrange(0, i as int)),
            decreases n - i,
        {
            if i > 0 {
                out.append(",");
            }
            out.append(self.target_ids[i].as_str());
            proof {
                reveal_strlit(",");
                assert(","@ =~= seq![',']);
                lemma_join_comma_snoc(ids.subrange(0, i as int), ids[i as int]);
                assert(ids.subrange(0, i + 1).drop_last() =~= ids.subrange(0, i as int));
                assert(ids.subrange(0, i + 1).last() == ids[i as int]);
                if i == 0 {
                    assert(ids.subrange(0, 1) =~= seq![ids[0]]);
                    assert(out@ =~= head + join_comma(ids.subrange(0, 1)));
                } else {
                    assert(ids.subrange(0, i + 1) =~= ids.subrange(0, i as int).push(
                        ids[i as int],
                    ));
                    assert(out@ =~= head + join_comma(ids.subrange(0, i + 1)));
                }
            }
            i = i + 1;
        }
        out.append("\n");
        proof {
            assert(ids.subrange(0, n as int) =~= ids);
            assert(out@ =~= "OK\n"@ + self.public_url@ + "?"@ + join_comma(ids) + "\n"@);
        }
        out
    }
}

/// Joining one more string appends a comma (past the first) and it.
proof fn lemma_join_comma_snoc(items: Seq<Seq<char>>, x: Seq<char>)
    ensures
        items.len() == 0 ==> join_comma(items.push(x)) == join_comma(items) + x,
        items.len() > 0 ==> join_comma(items.push(x)) == join_comma(items) + seq![','] + x,
{
    let u = items.push(x);
    assert(u.drop_last() =~= items);
    assert(u.last() == x);
    if items.len() == 0 {
        assert(u.len() == 1);
        assert(join_comma(u) == u[0]);
        assert(u[0] == x);
        assert(Seq::<char>::empty() + x =~= x);
    }
}

} // verus!
