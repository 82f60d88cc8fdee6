# ic_dbms

The memory layer, schema helpers and query logic of a database engine for the
Internet Computer, written in Verus and verified.

- `src/` is the verified library:
  - `types`, `encode`, `provider`, `memory`: pages of 64 KiB over a byte
    memory, the `Encode` trait that lays values out as bytes, and the memory
    manager that reads, writes and zeros aligned values within pages;
  - `free_segment`, `ledger`, `raw_record`, `write_at`: the bookkeeping of
    free space in table pages and the layout of stored records;
  - `schema`, `record`, `validation`, `transaction`, `metadata`, `canister`:
    column definitions and values, typed and untyped records, validators,
    errors and the table metadata of a canister;
  - `order`, `query`: what a select returns (the matching records ordered by
    several columns, the page of them that offset and limit leave, the
    columns it keeps, the relations it loads) and what updates and deletes
    call for (the patch of a record, the updates and deletes that follow in
    referencing tables, the count or error of a delete);
  - `fixtures`: sample record types used by the tests.
- `tests/` exercises the library.
- `app/` holds what runs on the Internet Computer or needs outside derives:
  the shared memory manager, the caller and trap system calls, the Candid
  forms of the public enums, the client and the parsing of canister
  attributes.
