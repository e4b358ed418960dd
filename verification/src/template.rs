//! What a miner asks of the node for its next block: who is paid, and what the coinbase says.

use vstd::prelude::*;
use vstd::string::*;
use crate::hextext::{encode, hex_text};
use crate::intake::ids_view;
use crate::text::{hex16, law_nonce_roundtrip, nonce_hex, nonce_value, text_view};

verus! {

/// How many block templates make a full turn of the counter that shares them out.
pub const TEMPLATE_CYCLE: u16 = 10_000;

/// A request for a block template.
pub struct TemplateRequest {
    /// Who is paid for the block.
    pub pay_address: String,
    /// What the coinbase says.
    pub extra_data: String,
}

/// The counter after one more template.
pub open spec fn ctr_after(v: u16) -> u16 {
    ((v + 1) % (TEMPLATE_CYCLE as int)) as u16
}

/// The counter after one more template.
pub fn advance_template_ctr(v: u16) -> (next: u16)
    requires
        v < u16::MAX,
    ensures
        next == ctr_after(v),
        next < TEMPLATE_CYCLE,
{
    (v + 1) % TEMPLATE_CYCLE
}

/// A random number.
///
/// Calls `rand::RngCore::next_u64` on `rand::thread_rng`. Nothing is relied on: any number can
/// come.
#[verifier::external_body]
pub(crate) fn draw() -> u64 {
    rand::RngCore::next_u64(&mut rand::thread_rng())
}

/// A random starting point for the counter, as `initial_template_ctr` makes it of a number left to chance.
pub fn draw_template_ctr() -> (v: u16)
    ensures
        v < TEMPLATE_CYCLE,
{
    initial_template_ctr(draw())
}

/// A starting point for the counter, out of a random number.
pub fn initial_template_ctr(random: u64) -> (v: u16)
    ensures
        v == random % 10_000,
        v < TEMPLATE_CYCLE,
{
    (random % 10_000) as u16
}

/// The counter after `n` more templates.
pub open spec fn ctr_after_many(v: u16, n: nat) -> u16
    decreases n,
{
    if n == 0 {
        v
    } else {
        ctr_after(ctr_after_many(v, (n - 1) as nat))
    }
}

/// The counter moves by one and turns over at the end of its cycle.
pub proof fn law_ctr_counts_round(v: u16, n: nat)
    requires
        v < TEMPLATE_CYCLE,
    ensures
        ctr_after_many(v, n) == (v + n) % 10_000,
        n == 10_000 ==> ctr_after_many(v, n) == v,
    decreases n,
{
    if n > 0 {
        law_ctr_counts_round(v, (n - 1) as nat);
    }
}

/// Whether the development fund is paid for a template: there is one, and the counter has not
/// passed its share.
pub open spec fn pays_devfund(devfund: Option<Seq<char>>, percent: u16, ctr: u16) -> bool {
    devfund is Some && ctr <= percent
}

/// Who is paid for a template.
pub open spec fn payee(
    miner: Seq<char>,
    devfund: Option<Seq<char>>,
    percent: u16,
    ctr: u16,
) -> Seq<char> {
    if pays_devfund(devfund, percent, ctr) {
        devfund->0
    } else {
        miner
    }
}

/// How many of the `n` templates from the counter `v` on pay the development fund.
pub open spec fn devfund_turns(devfund: Option<Seq<char>>, percent: u16, v: u16, n: nat) -> nat
    decreases n,
{
    if n == 0 {
        0
    } else {
        devfund_turns(devfund, percent, v, (n - 1) as nat) + if pays_devfund(
            devfund,
            percent,
            ctr_after_many(v, (n - 1) as nat),
        ) {
            1nat
        } else {
            0nat
        }
    }
}

/// How many counter values below `n` are within the share.
spec fn within_share(percent: u16, n: int) -> int {
    if n <= percent + 1 {
        n
    } else {
        percent + 1
    }
}

proof fn lemma_devfund_turns(devfund: Option<Seq<char>>, percent: u16, v: u16, n: nat)
    requires
        devfund is Some,
        v < TEMPLATE_CYCLE,
        n <= TEMPLATE_CYCLE,
    ensures
        devfund_turns(devfund, percent, v, n) == if v + n <= TEMPLATE_CYCLE {
            within_share(percent, v + n) - within_share(percent, v as int)
        } else {
            within_share(percent, TEMPLATE_CYCLE as int) - within_share(percent, v as int)
                + within_share(percent, v + n - TEMPLATE_CYCLE)
        },
    decreases n,
{
    if n > 0 {
        lemma_devfund_turns(devfund, percent, v, (n - 1) as nat);
        law_ctr_counts_round(v, (n - 1) as nat);
    }
}

/// Out of any full cycle of templates in a row, a fund is paid for one more than its share, which
/// is in hundredths of a percent, and for all of them where that is more than the cycle has.
/// Without a fund it is paid for none.
pub proof fn law_devfund_share(devfund: Option<Seq<char>>, percent: u16, v: u16)
    requires
        v < TEMPLATE_CYCLE,
    ensures
        devfund_turns(devfund, percent, v, TEMPLATE_CYCLE as nat) == if devfund is None {
            0
        } else if percent + 1 < TEMPLATE_CYCLE {
            percent + 1
        } else {
            TEMPLATE_CYCLE as int
        },
{
    if devfund is Some {
        lemma_devfund_turns(devfund, percent, v, TEMPLATE_CYCLE as nat);
    } else {
        lemma_no_devfund_turns(percent, v, TEMPLATE_CYCLE as nat);
    }
}

proof fn lemma_no_devfund_turns(percent: u16, v: u16, n: nat)
    ensures
        devfund_turns(None, percent, v, n) == 0,
    decreases n,
{
    if n > 0 {
        lemma_no_devfund_turns(percent, v, (n - 1) as nat);
    }
}

/// The hexadecimal forms of some ids, with commas between them.
pub open spec fn id_list(ids: Seq<Seq<u8>>) -> Seq<char>
    decreases ids.len(),
{
    if ids.len() == 0 {
        Seq::empty()
    } else if ids.len() == 1 {
        hex_text(ids[0])
    } else {
        id_list(ids.drop_last()) + ","@ + hex_text(ids.last())
    }
}

/// The part of the coinbase that names the escrow key.
pub open spec fn escrow_part(pubkey: Option<Seq<char>>) -> Seq<char> {
    match pubkey {
        Some(pk) => "/escrow:"@ + pk,
        None => Seq::empty(),
    }
}

/// The part of the coinbase that names the loaded models.
pub open spec fn capability_part(loaded: Seq<Seq<u8>>) -> Seq<char> {
    if loaded.len() == 0 {
        Seq::empty()
    } else {
        "/ai:cap:"@ + id_list(loaded)
    }
}

/// What the coinbase says: the build, the escrow key, a nonce, the inference tag and the loaded
/// models.
pub open spec fn coinbase_text(
    build: Seq<char>,
    pubkey: Option<Seq<char>>,
    nonce: u64,
    tag: Seq<char>,
    loaded: Seq<Seq<u8>>,
) -> Seq<char> {
    build + escrow_part(pubkey) + "/"@ + hex16(nonce) + "/ai:v1:"@ + tag + capability_part(loaded)
}

/// Two requests of one build and one escrow key with distinct nonces say distinct things,
/// whatever else they say.
pub proof fn law_nonces_keep_coinbases_apart(
    build: Seq<char>,
    pubkey: Option<Seq<char>>,
    nonce: u64,
    tag: Seq<char>,
    loaded: Seq<Seq<u8>>,
    other_nonce: u64,
    other_tag: Seq<char>,
    other_loaded: Seq<Seq<u8>>,
)
    requires
        coinbase_text(build, pubkey, nonce, tag, loaded) == coinbase_text(
            build,
            pubkey,
            other_nonce,
            other_tag,
            other_loaded,
        ),
    ensures
        nonce == other_nonce,
{
    let head = build + escrow_part(pubkey) + "/"@;
    let s = coinbase_text(build, pubkey, nonce, tag, loaded);
    law_nonce_roundtrip(nonce);
    law_nonce_roundtrip(other_nonce);
    let from = head.len() as int;
    assert(s.subrange(from, from + 16) =~= hex16(nonce));
    assert(s.subrange(from, from + 16) =~= hex16(other_nonce));
}

/// The hexadecimal forms of some ids, with commas between them.
fn list_ids(ids: &Vec<[u8; 32]>) -> (text: String)
    ensures
        text@ == id_list(ids_view(ids@)),
{
    let ghost views = ids_view(ids@);
    let mut text = String::new();
    let mut i: usize = 0;
    while i < ids.len()
        invariant
            i <= ids@.len(),
            views == ids_view(ids@),
            text@ == id_list(views.subrange(0, i as int)),
        decreases ids@.len() - i,
    {
        let one = encode(&ids[i]);
        if i > 0 {
            text.append(",");
        }
        text.append(one.as_str());
        proof {
            let next = views.subrange(0, i + 1);
            assert(next.drop_last() =~= views.subrange(0, i as int));
            assert(next.last() == ids@[i as int]@);
            assert(text@ =~= id_list(next));
        }
        i = i + 1;
    }
    assert(views.subrange(0, i as int) =~= views);
    text
}

/// What the coinbase says.
pub fn extra_data(
    build: &str,
    pubkey: &Option<String>,
    nonce: u64,
    tag: &str,
    loaded: &Vec<[u8; 32]>,
) -> (text: String)
    ensures
        text@ == coinbase_text(build@, text_view(*pubkey), nonce, tag@, ids_view(loaded@)),
{
    let mut text = String::from_str(build);
    if let Some(pk) = pubkey {
        text.append("/escrow:");
        text.append(pk.as_str());
    }
    assert(text@ =~= build@ + escrow_part(text_view(*pubkey)));
    text.append("/");
    let digits = nonce_hex(nonce);
    text.append(digits.as_str());
    text.append("/ai:v1:");
    text.append(tag);
    let ghost head = text@;
    if loaded.len() > 0 {
        let list = list_ids(loaded);
        text.append("/ai:cap:");
        text.append(list.as_str());
    }
    assert(text@ =~= head + capability_part(ids_view(loaded@)));
    text
}

/// The list of loaded models names all of them: id `i` stands in digits at its place, and commas
/// stand between them.
pub proof fn law_all_ids_are_listed(ids: Seq<Seq<u8>>, i: int)
    requires
        forall|j: int| 0 <= j < ids.len() ==> #[trigger] ids[j].len() == 32,
        0 <= i < ids.len(),
    ensures
        id_list(ids).len() == 65 * ids.len() - 1,
        id_list(ids).subrange(65 * i, 65 * i + 64) == hex_text(ids[i]),
        i > 0 ==> id_list(ids)[65 * i - 1] == ',',
    decreases ids.len(),
{
    reveal_strlit(",");
    assert(ids[ids.len() - 1].len() == 32);
    let s = id_list(ids);
    if ids.len() == 1 {
        assert(s.subrange(0, 64) =~= hex_text(ids[0]));
    } else {
        let head = ids.drop_last();
        assert forall|j: int| 0 <= j < head.len() implies #[trigger] head[j].len() == 32 by {
            assert(head[j] == ids[j]);
        }
        if i < head.len() {
            law_all_ids_are_listed(head, i);
            assert(s.subrange(65 * i, 65 * i + 64) =~= id_list(head).subrange(65 * i, 65 * i + 64));
        } else {
            law_all_ids_are_listed(head, 0);
            assert(s.subrange(65 * i, 65 * i + 64) =~= hex_text(ids[i]));
        }
    }
}

/// The coinbase says everything in its place: first the build, after the escrow key the nonce,
/// after that the tag, and at the end the loaded models, if there are any.
pub proof fn law_coinbase_says_everything(
    build: Seq<char>,
    pubkey: Option<Seq<char>>,
    nonce: u64,
    tag: Seq<char>,
    loaded: Seq<Seq<u8>>,
)
    ensures
        ({
            let s = coinbase_text(build, pubkey, nonce, tag, loaded);
            let head = build.len() as int;
            let key_len = match pubkey {
                Some(pk) => 8 + pk.len() as int,
                None => 0,
            };
            let at = head + key_len + 1;
            let after = at + 16 + 7 + tag.len();
            &&& s.subrange(0, head) == build
            &&& pubkey matches Some(pk) ==> s.subrange(head, head + 8) == "/escrow:"@
                && s.subrange(head + 8, at - 1) == pk
            &&& s[at - 1] == '/'
            &&& nonce_value(s.subrange(at, at + 16)) == nonce
            &&& s.subrange(at + 16, at + 23) == "/ai:v1:"@
            &&& s.subrange(at + 23, after) == tag
            &&& loaded.len() == 0 ==> s.len() == after
            &&& loaded.len() > 0 ==> s.subrange(after, after + 8) == "/ai:cap:"@ && s.subrange(
                after + 8,
                s.len() as int,
            ) == id_list(loaded)
        }),
{
    reveal_strlit("/escrow:");
    reveal_strlit("/");
    reveal_strlit("/ai:v1:");
    reveal_strlit("/ai:cap:");
    law_nonce_roundtrip(nonce);
    let s = coinbase_text(build, pubkey, nonce, tag, loaded);
    let key = escrow_part(pubkey);
    let head = build.len() as int;
    let at = head + key.len() + 1;
    let after = at + 16 + 7 + tag.len();
    assert(s.subrange(0, head) =~= build);
    if let Some(pk) = pubkey {
        assert(key.len() == 8 + pk.len());
        assert(s.subrange(head, head + 8) =~= "/escrow:"@);
        assert(s.subrange(head + 8, at - 1) =~= pk);
    }
    assert(s.subrange(at, at + 16) =~= hex16(nonce));
    assert(s.subrange(at + 16, at + 23) =~= "/ai:v1:"@);
    assert(s.subrange(at + 23, after) =~= tag);
    if loaded.len() > 0 {
        assert(s.subrange(after, after + 8) =~= "/ai:cap:"@);
        assert(s.subrange(after + 8, s.len() as int) =~= id_list(loaded));
    }
}

/// Someone is always paid: the fund where it is its turn, the miner otherwise.
pub proof fn law_fund_or_miner_is_paid(miner: Seq<char>, fund: Seq<char>, percent: u16, ctr: u16)
    ensures
        ctr <= percent ==> payee(miner, Some(fund), percent, ctr) == fund,
        ctr > percent ==> payee(miner, Some(fund), percent, ctr) == miner,
        payee(miner, None, percent, ctr) == miner,
{
}

} // verus!
