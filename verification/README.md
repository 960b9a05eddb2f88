# Apple TV

One product, two ways in: Companion over the network, or an IR emitter. This crate is the first
of them, as a library of verified decisions: pairing with a television, opening a session,
pressing its buttons, and sending it straight to a title.

## Layout

| module | what it is |
|---|---|
| `setup`, `steps` | finding a device and pairing with it, step by step |
| `device`, `host` | driving a paired device: commands, events, the session |
| `srp` | the pairing handshake: Pair Setup and Pair Verify |
| `frame` | frames on the wire, and bytes that arrive in pieces |
| `opack`, `tlv8` | the two encodings |
| `links` | which app spells a deep link how |
| `crypto` | what is believed of the cryptography that comes from elsewhere |
| `bytes`, `hex`, `text`, `strmap` | what the others are made of |

Every function states what it returns in its contract, over mathematical models of the types, and
Verus proves that it does. What is believed without proof is what the functions of `crypto` and
five of `text` say of the outside functions that they call: in `text` those are functions of the
standard library (`String::from_utf8_lossy`, the `Debug` form of `str`, `str::to_lowercase`,
`char::is_alphanumeric` and `String::push`). What holds of several functions together is stated in proof functions
whose names begin with `law_`; the larger groups of them are in `opack::laws`, `device::laws` and
`srp::laws`.

`app/` is the plugin around the library. It turns JSON into the library's types and back.

## Setting it up

1. The Apple TV must be awake and on the same network. One asleep on ethernet still answers; on
   Wi-Fi it usually does not.
2. Pick it from the list, type its address, or use IR instead.
3. A four-digit code appears on the television. Type it in.

The pairing is stored as four properties and used on every connection afterwards. If the Apple TV
is factory reset, the stored key stops matching and the driver says so.

## Deep links rot

They are not an API that anybody promised. `links` is a table for that reason, and a service that
is unknown or known to be dead still launches, by bundle id and on its home screen, and says that
this is what happened.

Working, as of writing: Apple TV, Disney+, YouTube, Hulu, Peacock, Pluto, Spotify. Peacock's bundle
id and link are from general knowledge and have not been tried on a device.

## What is not here

Now-playing metadata and artwork, Siri, and power. An Apple TV has no discrete power state.
