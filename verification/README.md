# simple_dns

The logic of a small authoritative DNS server, verified with Verus.

- `src/tokens.rs`: zone file text into words (comments and include lines left out).
- `src/zone.rs`: the words of the zones read, directive by directive, into records.
- `src/validate.rs`: what counts as a dotted quad and as a domain name.
- `src/register.rs`: the records, filed by (name, class) and MX records by (name, preference), and lookups.
- `src/answer.rs`: records in DNS wire format.
- `src/server.rs`: the answer to a query, written into the message buffer.
- `src/laws.rs`: properties that span these functions.
- `src/text.rs`: splitting, decimal numbers, and the char classes of std.
- `app/main.rs`: the program: sockets (through C), signals, zone files on disk.
