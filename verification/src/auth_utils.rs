//! Who may connect: a client proves itself with the time-based token of its seed.

use vstd::hash_map::StringHashMap;
use vstd::prelude::*;

verus! {

/// The hash function inside a token's message authentication code.
#[derive(Debug, Clone, Copy)]
pub enum TokenHash {
    Sha1,
    Sha256,
    Sha512,
}

#[verifier::external_type_specification]
#[verifier::external_body]
pub struct ExTotpUrlError(totp_rs::TotpUrlError);

#[verifier::external_type_specification]
#[verifier::external_body]
pub struct ExSystemTimeError(std::time::SystemTimeError);

#[verifier::external_type_specification]
#[verifier::external_body]
pub struct ExJsonError(serde_json::Error);

/// The token that `totp_rs::TOTP::generate` makes in the given time step.
pub uninterp spec fn totp_token(hash: TokenHash, digits: usize, secret: Seq<u8>, step: u64) -> Seq<
    char,
>;

/// The mapping from clients to seeds that `serde_json::from_str` reads from a users file.
pub uninterp spec fn parsed_users(json: Seq<char>) -> Option<Map<Seq<char>, Seq<u8>>>;

/// `entries` lists what `map` holds: the keys with their values, all of them and no others.
pub open spec fn lists_entries(entries: Seq<(String, Vec<u8>)>, map: Map<Seq<char>, Seq<u8>>) -> bool {
    &&& forall|i: int|
        0 <= i < entries.len() ==> map.contains_key(#[trigger] entries[i].0@) && map[entries[i].0@]
            == entries[i].1@
    &&& forall|key: Seq<char>| #[trigger]
        map.contains_key(key) ==> exists|i: int|
            0 <= i < entries.len() && #[trigger] entries[i].0@ == key
}

/// Calls `serde_json::from_str` for a map from strings to byte lists and hands the entries out in
/// no particular order. Claimed: whether the text is accepted, and which entries it holds, depends
/// on the text alone.
#[verifier::external_body]
fn parse_users_json(json: &str) -> (parsed: Result<Vec<(String, Vec<u8>)>, serde_json::Error>)
    ensures
        parsed is Ok <==> parsed_users(json@) is Some,
        parsed matches Ok(entries) ==> lists_entries(entries@, parsed_users(json@)->0),
{
    match serde_json::from_str::<std::collections::HashMap<String, Vec<u8>>>(json) {
        Ok(users) => Ok(users.into_iter().collect()),
        Err(error) => Err(error),
    }
}

/// `text` holds decimal digits and nothing else.
pub open spec fn is_decimal(text: Seq<char>) -> bool {
    forall|i: int| 0 <= i < text.len() ==> '0' <= #[trigger] text[i] <= '9'
}

/// What tokens can be made of: six to eight digits, and a secret of at least sixteen bytes.
pub open spec fn token_parameters_valid(digits: usize, secret: Seq<u8>) -> bool {
    &&& 6 <= digits <= 8
    &&& secret.len() >= 16
}

/// Calls `totp_rs::TOTP::new` and, on what it gives, `generate_current`, which panics on a step
/// of no seconds. Claimed: the parameters are accepted exactly for six to eight digits and at
/// least sixteen bytes of secret; a token, where the clock can be read, is the one of the time
/// step of some moment, and is made of that many decimal digits.
#[verifier::external_body]
fn generate_current_token(
    hash: TokenHash,
    digits: usize,
    skew: u8,
    step: u64,
    secret: &[u8],
) -> (generated: Result<Result<String, std::time::SystemTimeError>, totp_rs::TotpUrlError>)
    requires
        step > 0,
    ensures
        generated is Ok <==> token_parameters_valid(digits, secret@),
        generated matches Ok(Ok(token)) ==> exists|time: u64|
            token@ == #[trigger] totp_token(hash, digits, secret@, (time / step) as u64),
        generated matches Ok(Ok(token)) ==> token@.len() == digits && is_decimal(token@),
{
    let algorithm = match hash {
        TokenHash::Sha1 => totp_rs::Algorithm::SHA1,
        TokenHash::Sha256 => totp_rs::Algorithm::SHA256,
        TokenHash::Sha512 => totp_rs::Algorithm::SHA512,
    };
    match totp_rs::TOTP::new(algorithm, digits, skew, step, secret.to_vec()) {
        Ok(totp) => Ok(totp.generate_current()),
        Err(error) => Err(error),
    }
}

/// How many digits a token has.
pub const TOKEN_DIGITS: usize = 6;

/// How many time steps before and after the current one a token may be off.
pub const TOKEN_SKEW: u8 = 1;

/// How many seconds a token lasts.
pub const TOKEN_SECONDS: u64 = 30;

/// Why a client could be neither let in nor turned away.
#[derive(Debug, PartialEq, Eq, Structural, Clone, Copy)]
pub enum AuthError {
    /// The users file is not a mapping from clients to seeds.
    MalformedUsers,
    /// No token can be made: the seed is too short, or the clock cannot be read.
    InvalidCredentials,
}

/// The token that belongs to a seed at a moment, in seconds since the Unix epoch.
pub open spec fn token_at(seed: Seq<u8>, time: u64) -> Seq<char> {
    totp_token(TokenHash::Sha1, TOKEN_DIGITS, seed, (time / TOKEN_SECONDS) as u64)
}

/// A token stays the same until its time is up.
pub proof fn law_token_lasts(seed: Seq<u8>, time: u64, later: u64)
    requires
        time / TOKEN_SECONDS == later / TOKEN_SECONDS,
    ensures
        token_at(seed, time) == token_at(seed, later),
{
}

/// The seeds of an authentication list, by client.
pub open spec fn seeds_of(list: Map<Seq<char>, Vec<u8>>) -> Map<Seq<char>, Seq<u8>> {
    list.map_values(|seed: Vec<u8>| seed@)
}

/// The seeds that a list of entries holds, by client; the last one counts where a client has two.
pub open spec fn entries_map(entries: Seq<(String, Vec<u8>)>) -> Map<Seq<char>, Seq<u8>>
    decreases entries.len(),
{
    if entries.len() == 0 {
        Map::empty()
    } else {
        entries_map(entries.drop_last()).insert(entries.last().0@, entries.last().1@)
    }
}

proof fn lemma_entries_map(entries: Seq<(String, Vec<u8>)>, map: Map<Seq<char>, Seq<u8>>)
    requires
        forall|i: int|
            0 <= i < entries.len() ==> map.contains_key(#[trigger] entries[i].0@)
                && map[entries[i].0@] == entries[i].1@,
    ensures
        forall|key: Seq<char>| #[trigger]
            entries_map(entries).contains_key(key) ==> map.contains_key(key)
                && entries_map(entries)[key] == map[key],
        forall|i: int|
            0 <= i < entries.len() ==> entries_map(entries).contains_key(#[trigger] entries[i].0@),
    decreases entries.len(),
{
    if entries.len() > 0 {
        let rest = entries.drop_last();
        assert forall|i: int| 0 <= i < rest.len() implies map.contains_key(
            #[trigger] rest[i].0@,
        ) && map[rest[i].0@] == rest[i].1@ by {
            assert(rest[i] == entries[i]);
        }
        lemma_entries_map(rest, map);
        let last = entries[entries.len() - 1].0@;
        assert(map.contains_key(last));
        assert forall|key: Seq<char>| #[trigger] entries_map(entries).contains_key(key) implies
            map.contains_key(key) && entries_map(entries)[key] == map[key] by {
            if key != last {
                assert(entries_map(rest).contains_key(key));
            }
        }
        assert forall|i: int| 0 <= i < entries.len() implies entries_map(entries).contains_key(
            #[trigger] entries[i].0@,
        ) by {
            if i < rest.len() {
                assert(rest[i].0@ == entries[i].0@);
            }
        }
    }
}

/// The authentication list that was read, if what was read made sense.
pub fn accept_users(parsed: Result<Vec<(String, Vec<u8>)>, serde_json::Error>) -> (list: Result<
    StringHashMap<Vec<u8>>,
    AuthError,
>)
    ensures
        match parsed {
            Ok(entries) => list is Ok && seeds_of(list->Ok_0@) == entries_map(entries@),
            Err(_) => list == Err::<StringHashMap<Vec<u8>>, AuthError>(AuthError::MalformedUsers),
        },
{
    let entries = match parsed {
        Ok(entries) => entries,
        Err(_) => return Err(AuthError::MalformedUsers),
    };
    let ghost all = entries@;
    let mut list: StringHashMap<Vec<u8>> = StringHashMap::new();
    assert(all.take(0) =~= Seq::empty());
    assert(seeds_of(list@) =~= Map::empty());
    for i in 0..entries.len()
        invariant
            all == entries@,
            seeds_of(list@) == entries_map(all.take(i as int)),
    {
        let client: String = entries[i].0.clone();
        let seed: Vec<u8> = entries[i].1.clone();
        let ghost before = list@;
        list.insert(client, seed);
        proof {
            assert(seed@ =~= all[i as int].1@);
            assert(all.take(i as int + 1).drop_last() =~= all.take(i as int));
            assert(seeds_of(list@) =~= seeds_of(before).insert(client@, seed@));
        }
    }
    assert(all.take(all.len() as int) =~= all);
    Ok(list)
}

/// Reads the text of the users file: the seed of each client.
pub fn get_client_auth_list(users_json: &str) -> (list: Result<StringHashMap<Vec<u8>>, AuthError>)
    ensures
        match parsed_users(users_json@) {
            Some(users) => list is Ok && seeds_of(list->Ok_0@) == users,
            None => list == Err::<StringHashMap<Vec<u8>>, AuthError>(AuthError::MalformedUsers),
        },
{
    let parsed = parse_users_json(users_json);
    proof {
        if parsed is Ok {
            let entries = parsed->Ok_0@;
            let users = parsed_users(users_json@)->0;
            lemma_entries_map(entries, users);
            assert forall|key: Seq<char>| #[trigger] users.contains_key(key) implies entries_map(
                entries,
            ).contains_key(key) by {
                let i = choose|i: int| 0 <= i < entries.len() && #[trigger] entries[i].0@ == key;
                assert(entries_map(entries).contains_key(entries[i].0@));
            }
            assert(entries_map(entries) =~= users);
        }
    }
    accept_users(parsed)
}

/// `generated` is what came of asking for the current token of a seed.
pub closed spec fn is_current(
    seed: Seq<u8>,
    generated: Result<Result<String, std::time::SystemTimeError>, totp_rs::TotpUrlError>,
) -> bool {
    exists|bytes: &[u8]|
        bytes@ == seed && #[trigger] call_ensures(
            generate_current_token,
            (TokenHash::Sha1, TOKEN_DIGITS, TOKEN_SKEW, TOKEN_SECONDS, bytes),
            generated,
        )
}

/// To ask for the current token is to ask for one of SHA-1 and six digits, with a skew of one and in
/// steps of thirty seconds, for all of the seed.
proof fn law_current_tokens_are_asked_for(
    seed: Seq<u8>,
    generated: Result<Result<String, std::time::SystemTimeError>, totp_rs::TotpUrlError>,
)
    ensures
        is_current(seed, generated) <==> exists|bytes: &[u8]|
            bytes@ == seed && #[trigger] call_ensures(
                generate_current_token,
                (TokenHash::Sha1, 6usize, 1u8, 30u64, bytes),
                generated,
            ),
{
}

/// What came of asking for the current token of a seed: none is made exactly for a seed of less than
/// sixteen bytes. Otherwise the clock could not be read, or there is a token, of the half minute of
/// some moment and of six decimal digits.
pub proof fn law_current_token(
    seed: Seq<u8>,
    generated: Result<Result<String, std::time::SystemTimeError>, totp_rs::TotpUrlError>,
)
    requires
        is_current(seed, generated),
    ensures
        generated is Ok <==> seed.len() >= 16,
        generated matches Ok(Ok(token)) ==> {
            &&& exists|time: u64|
                token@ == #[trigger] totp_token(TokenHash::Sha1, 6, seed, (time / 30) as u64)
            &&& token@.len() == 6
            &&& forall|i: int| 0 <= i < 6 ==> '0' <= #[trigger] token@[i] <= '9'
        },
{
    if generated is Ok && generated->Ok_0 is Ok {
        let token = generated->Ok_0->Ok_0;
        let time = choose|time: u64|
            token@ == #[trigger] totp_token(
                TokenHash::Sha1,
                TOKEN_DIGITS,
                seed,
                (time / TOKEN_SECONDS) as u64,
            );
        assert(token@ == totp_token(TokenHash::Sha1, 6, seed, (time / 30) as u64));
    }
}

/// A seed of at least sixteen bytes gets the token that was made for it whenever the clock could be
/// read; a shorter one never gets any.
pub proof fn law_seed_gets_its_token(totp_seed: &[u8], token: Result<String, AuthError>)
    requires
        call_ensures(calculate_totp_token, (totp_seed,), token),
    ensures
        totp_seed@.len() < 16 ==> token == Err::<String, AuthError>(AuthError::InvalidCredentials),
        totp_seed@.len() >= 16 ==> exists|
            made: Result<String, std::time::SystemTimeError>,
        |
            {
                &&& #[trigger] is_current(
                    totp_seed@,
                    Ok::<_, totp_rs::TotpUrlError>(made),
                )
                &&& match made {
                    Ok(text) => token == Ok::<String, AuthError>(text),
                    Err(_) => token == Err::<String, AuthError>(AuthError::InvalidCredentials),
                }
            },
{
    let generated = choose|
        generated: Result<Result<String, std::time::SystemTimeError>, totp_rs::TotpUrlError>,
    |
        #[trigger] is_current(totp_seed@, generated) && token == match generated {
            Ok(Ok(text)) => Ok::<String, AuthError>(text),
            _ => Err(AuthError::InvalidCredentials),
        };
    law_current_token(totp_seed@, generated);
    if generated is Ok {
        let made = generated->Ok_0;
        assert(is_current(totp_seed@, Ok::<_, totp_rs::TotpUrlError>(made)));
    }
}

/// A client with a seed of at least sixteen bytes is let in with the token that was made for the seed,
/// is turned away with any other, and is told that the credentials are invalid only where the
/// clock could not be read.
pub proof fn law_token_lets_client_in(
    users_json: &str,
    client_id: &str,
    auth_token: &str,
    allowed: Result<bool, AuthError>,
)
    requires
        call_ensures(authorise, (users_json, client_id, auth_token), allowed),
        parsed_users(users_json@) is Some,
        parsed_users(users_json@)->0.contains_key(client_id@),
        parsed_users(users_json@)->0[client_id@].len() >= 16,
    ensures
        exists|made: Result<String, std::time::SystemTimeError>|
            {
                &&& #[trigger] is_current(
                    parsed_users(users_json@)->0[client_id@],
                    Ok::<_, totp_rs::TotpUrlError>(made),
                )
                &&& match made {
                    Ok(text) => allowed == Ok::<bool, AuthError>(auth_token@ == text@),
                    Err(_) => allowed == Err::<bool, AuthError>(AuthError::InvalidCredentials),
                }
            },
{
    let seed = parsed_users(users_json@)->0[client_id@];
    let generated = choose|
        generated: Result<Result<String, std::time::SystemTimeError>, totp_rs::TotpUrlError>,
    |
        #[trigger] is_current(seed, generated) && allowed == match generated {
            Ok(Ok(text)) => Ok::<bool, AuthError>(auth_token@ == text@),
            _ => Err(AuthError::InvalidCredentials),
        };
    law_current_token(seed, generated);
    assert(is_current(seed, Ok::<_, totp_rs::TotpUrlError>(generated->Ok_0)));
}

/// A users file that makes no sense, a client that it does not name, and a seed of less than sixteen
/// bytes each have their answer, whatever token is shown.
pub proof fn law_clients_without_token(
    users_json: &str,
    client_id: &str,
    auth_token: &str,
    allowed: Result<bool, AuthError>,
)
    requires
        call_ensures(authorise, (users_json, client_id, auth_token), allowed),
    ensures
        allowed == Err::<bool, AuthError>(AuthError::MalformedUsers) <==> parsed_users(
            users_json@,
        ) is None,
        parsed_users(users_json@) matches Some(users) ==> !users.contains_key(client_id@)
            ==> allowed == Ok::<bool, AuthError>(false),
        parsed_users(users_json@) matches Some(users) ==> users.contains_key(client_id@)
            && users[client_id@].len() < 16 ==> allowed == Err::<bool, AuthError>(
            AuthError::InvalidCredentials,
        ),
{
}

/// The authentication list holds the seed of each client that the users file names, and no others.
pub proof fn law_auth_list_is_the_users_file(
    users_json: &str,
    list: Result<StringHashMap<Vec<u8>>, AuthError>,
)
    requires
        call_ensures(get_client_auth_list, (users_json,), list),
    ensures
        list is Ok <==> parsed_users(users_json@) is Some,
        list matches Ok(seeds) ==> forall|client: Seq<char>|
            {
                &&& #[trigger] seeds@.contains_key(client) <==> parsed_users(
                    users_json@,
                )->0.contains_key(client)
                &&& seeds@.contains_key(client) ==> seeds@[client]@ == parsed_users(
                    users_json@,
                )->0[client]
            },
{
    if list is Ok {
        let seeds = list->Ok_0@;
        let users = parsed_users(users_json@)->0;
        assert forall|client: Seq<char>|
            {
                &&& #[trigger] seeds.contains_key(client) <==> users.contains_key(client)
                &&& seeds.contains_key(client) ==> seeds[client]@ == users[client]
            } by {
            assert(seeds_of(seeds).contains_key(client) <==> seeds.contains_key(client));
            if seeds.contains_key(client) {
                assert(seeds_of(seeds)[client] == seeds[client]@);
            }
        }
    }
}

/// Entries that were read go into the list one after the other: one more entry sets the seed of its
/// client and leaves the others as they are.
pub proof fn law_entries_are_taken_in_turn(
    entries: Seq<(String, Vec<u8>)>,
    client: String,
    seed: Vec<u8>,
    other: Seq<char>,
)
    ensures
        !entries_map(Seq::empty()).contains_key(other),
        entries_map(entries.push((client, seed))).contains_key(client@),
        entries_map(entries.push((client, seed)))[client@] == seed@,
        other != client@ ==> {
            &&& entries_map(entries.push((client, seed))).contains_key(other)
                <==> entries_map(entries).contains_key(other)
            &&& entries_map(entries).contains_key(other) ==> entries_map(
                entries.push((client, seed)),
            )[other] == entries_map(entries)[other]
        },
{
    assert(entries.push((client, seed)).drop_last() =~= entries);
}

/// The token, if one was made. That the seed is too short and that the clock cannot be read are not
/// told apart.
pub fn accept_token(
    generated: Result<Result<String, std::time::SystemTimeError>, totp_rs::TotpUrlError>,
) -> (token: Result<String, AuthError>)
    ensures
        token == match generated {
            Ok(Ok(text)) => Ok(text),
            _ => Err(AuthError::InvalidCredentials),
        },
{
    match generated {
        Ok(Ok(text)) => Ok(text),
        _ => Err(AuthError::InvalidCredentials),
    }
}

/// The token that a client with this seed has to show now.
pub fn calculate_totp_token(totp_seed: &[u8]) -> (token: Result<String, AuthError>)
    ensures
        totp_seed@.len() < 16 ==> token is Err,
        token matches Err(error) ==> error == AuthError::InvalidCredentials,
        token matches Ok(text) ==> exists|time: u64| text@ == #[trigger] token_at(totp_seed@, time),
        token matches Ok(text) ==> text@.len() == TOKEN_DIGITS && is_decimal(text@),
        exists|
            generated: Result<Result<String, std::time::SystemTimeError>, totp_rs::TotpUrlError>,
        |
            #[trigger] is_current(totp_seed@, generated) && token == match generated {
                Ok(Ok(text)) => Ok::<String, AuthError>(text),
                _ => Err(AuthError::InvalidCredentials),
            },
{
    let generated = generate_current_token(
        TokenHash::Sha1,
        TOKEN_DIGITS,
        TOKEN_SKEW,
        TOKEN_SECONDS,
        totp_seed,
    );
    proof {
        assert(is_current(totp_seed@, generated));
        if generated is Ok && generated->Ok_0 is Ok {
            let token = generated->Ok_0->Ok_0;
            let time = choose|time: u64|
                token@ == #[trigger] totp_token(
                    TokenHash::Sha1,
                    TOKEN_DIGITS,
                    totp_seed@,
                    (time / TOKEN_SECONDS) as u64,
                );
            assert(token@ == token_at(totp_seed@, time));
        }
    }
    accept_token(generated)
}

/// Whether the token that a client shows is the one the server has made for it.
pub fn compare_tokens(auth_token: &str, server_token: Result<String, AuthError>) -> (allowed: Result<
    bool,
    AuthError,
>)
    ensures
        allowed == match server_token {
            Ok(token) => Ok(auth_token@ == token@),
            Err(error) => Err(error),
        },
{
    match server_token {
        Ok(token) => Ok(auth_token.to_owned() == token),
        Err(error) => Err(error),
    }
}

/// Decides whether a client that shows `auth_token` is let in, given the text of the users file.
/// A client that the file does not name never is.
pub fn authorise(users_json: &str, client_id: &str, auth_token: &str) -> (allowed: Result<
    bool,
    AuthError,
>)
    ensures
        match parsed_users(users_json@) {
            None => allowed == Err::<bool, AuthError>(AuthError::MalformedUsers),
            Some(users) => if !users.contains_key(client_id@) {
                allowed == Ok::<bool, AuthError>(false)
            } else if users[client_id@].len() < 16 {
                allowed == Err::<bool, AuthError>(AuthError::InvalidCredentials)
            } else {
                ||| allowed == Err::<bool, AuthError>(AuthError::InvalidCredentials)
                ||| exists|time: u64|
                    allowed == Ok::<bool, AuthError>(
                        auth_token@ == #[trigger] token_at(users[client_id@], time),
                    )
            },
        },
        allowed == Ok::<bool, AuthError>(true) ==> auth_token@.len() == TOKEN_DIGITS && is_decimal(
            auth_token@,
        ),
        parsed_users(users_json@) matches Some(users) ==> users.contains_key(client_id@) ==> exists|
            generated: Result<Result<String, std::time::SystemTimeError>, totp_rs::TotpUrlError>,
        |
            #[trigger] is_current(users[client_id@], generated) && allowed == match generated {
                Ok(Ok(text)) => Ok::<bool, AuthError>(auth_token@ == text@),
                _ => Err(AuthError::InvalidCredentials),
            },
{
    let auth_list = match get_client_auth_list(users_json) {
        Ok(auth_list) => auth_list,
        Err(error) => return Err(error),
    };
    match auth_list.get(client_id) {
        Some(totp_seed) => {
            assert(seeds_of(auth_list@)[client_id@] == totp_seed@);
            assert(seeds_of(auth_list@).contains_key(client_id@));
            compare_tokens(auth_token, calculate_totp_token(totp_seed.as_slice()))
        },
        None => {
            assert(!seeds_of(auth_list@).contains_key(client_id@));
            Ok(false)
        },
    }
}

} // verus!
