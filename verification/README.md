# sendmail-sec

A local SMTP submission service that accepts authenticated mail from trusted networks,
encrypts it with OpenPGP (PGP/MIME) and relays it to a remote SMTP server over TLS.

The decisions of the service live in a library verified with Verus (`src/`):

- `listener.rs`: the inbound SMTP session as a state machine (commands, AUTH PLAIN, the
  DATA phase, replies, the access rule), with its invariant and laws.
- `remote_smtp.rs`: reading replies of the remote server, its EHLO capabilities, the AUTH
  payloads, and the relay client as a state machine that never sends credentials or mail
  before TLS is up.
- `message.rs`: line endings, dot-stuffing, header blocks, the plaintext to encrypt, the
  PGP/MIME envelope and the recipients to encrypt for.
- `openpgp.rs`: lookup addresses, z-base-32 WKD hashes and key URLs, certificate selection
  and deduplication, the key index and cache, the lookup order, and encryption.
- `tls.rs`: the extra root certificates read from the configured PEM files.
- `config.rs`, `net.rs`, `text.rs`: configuration model and rules, CIDR networks, and
  string helpers.

`app/` holds the program around it: command line, configuration files, logging, and the
network drivers (TCP, TLS, HTTPS) that feed events to the verified state machines and
perform the actions they return.
