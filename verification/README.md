# crypto_balance

The verified core of a small web service that shows the value of a crypto
account over time. The service reads daily account snapshots from an exchange
and currency prices from a price service, stores both in MongoDB, and answers
with the snapshots valued in the stored prices.

`src/` is the library, verified with Verus:

- `timespan`: time spans as instants in ticks (chrono's seconds and sub-second nanoseconds, leap seconds kept); which spans of a request
  the stored snapshots miss; cutting spans into request-sized windows.
- `plan`: what the history endpoint must fetch before it answers.
- `requests`: the signed exchange URL, the price-service URL, and the reading
  of the price service's answer.
- `assets`: the assets whose prices are fetched.
- `datetime`, `signing`, `text`: RFC 3339 text (through `chrono`),
  HMAC-SHA256 signatures (through `hmac`, `sha2` and `hex`), decimal numbers,
  joined lists and escaped colons.
- `model`: the settings, the request body and the price service's records.

`app/` is the service itself: routes (Rocket), the environment, MongoDB
access and the HTTP calls (reqwest), and the float-valued records.
