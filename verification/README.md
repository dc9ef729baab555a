# tufops

The TUF operations service: runs a [TUF](https://theupdateframework.io) repository from GitHub.
Metadata lives in git, artifacts live in cloud storage, and changes are signed with YubiKeys
(offline) or Cloud KMS (online) in pull-request-tracked signing events.

* `src/`: the library, verified with [Verus](https://github.com/verus-lang/verus)
  * `config`: what `tufops.toml` may say
  * `repo`, `update`: reading, signing and editing the metadata
  * `status`: what a signing event changes, and who still has to sign it
  * `publish`: what clients accept, and which objects to upload
  * `git`, `cloud`: which commands to run, and where objects and keys are
  * `ci`, `cli`: what the automation does, and what the command line tool says
  * `documents`, `keys`, `metadata`: the boundary to the crates that read and write the formats
  * `text`, `strmap`, `order`, `time`, `error`: the values that all of these are made of
* `app/`: the `tufops` program around it, with the terminal, files, git, YubiKeys, GitHub and Google
  Cloud
* `tests/`: the library at work, with real keys and metadata

## What is trusted

Parsing and writing metadata, key formats, signatures, digests, URLs and calendar dates are the work
of the crates `tuf`, `serde_json`, `x509-cert`, `ring`, `sha2`, `md-5`, `url` and `chrono`. Each function that
calls one of them is marked `external_body`, and its comment says what is taken on trust.
