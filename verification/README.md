# homesec_advisor

A home-security advisor that talks to customers: what it replies, what it asks
back, when it offers a call, which products it shows, and what it never lets
out. The library decides all of that and is verified with Verus; the service
around it only talks to the outside world.

- `src/` is the library.
  - `text`, `attrs`, `urls`, `cursor`, `hours`: texts, attributes, addresses,
    cursors and times of day.
  - `understand`, `conversation`, `decide`: what is known of a customer, where
    the conversation stands, and which kind of reply a message gets.
  - `materials`, `cards`, `quick_replies`, `canned`: what an answer may rest on,
    and what goes with it.
  - `prompt_input`, `product_gate`, `draft_meta`, `draftgen`: the prompt for a
    draft, and the gates between a draft and the customer.
  - `api`, `cs_support`: one turn of a conversation, with the advisor and with
    support.
  - `admin`: the conversations as they are listed for the people who run the
    advisor.
- `tests/` runs the library.
- `app/` is the HTTP service: routes, storage, search and the language model.

What is taken from other crates without proof is marked
`#[verifier::external_body]`; each such function says what it calls and what it
claims of it.
